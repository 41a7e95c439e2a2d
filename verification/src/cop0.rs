//! Coprocessor 0: the exception, TLB and configuration register file. It is
//! a dormant, name-indexed table: no instruction of the executed subset
//! drives it, but its registers can be read and written by number and
//! select.

use vstd::prelude::*;

verus! {

/// The coprocessor-0 register file. Register names and numbering follow the
/// architecture manual's `(number, select)` scheme.
#[derive(Clone, Copy, Debug, PartialEq, Eq, Structural)]
pub struct Cop0 {
    pub index: u32,
    pub random: u32,
    pub entry_lo0: u32,
    pub entry_lo1: u32,
    pub context: u32,
    pub page_mask: u32,
    pub wired: u32,
    pub bad_v_addr: u32,
    pub count: u32,
    pub entry_hi: u32,
    pub compare: u32,
    pub status: u32,
    pub cause: u32,
    pub epc: u32,
    pub prid: u32,
    pub config0: u32,
    pub config1: u32,
    pub config2: u32,
    pub config3: u32,
    pub ll_addr: u32,
    pub watch_lo: u32,
    pub watch_hi: u32,
    pub debug: u32,
    pub depc: u32,
    pub perf_cnt: u32,
    pub err_ctl: u32,
    pub cache_err: u32,
    pub tag_lo: u32,
    pub data_lo: u32,
    pub tag_hi: u32,
    pub data_hi: u32,
    pub error_epc: u32,
    pub desave: u32,
}

/// The `(number, select)` pairs this table implements.
pub open spec fn cop0_reg_implemented(n: u32, sel: u32) -> bool {
    ||| (n == 0 || n == 1 || n == 2 || n == 3 || n == 4 || n == 5 || n == 6 || n == 8 || n == 9
        || n == 10 || n == 11 || n == 12 || n == 13 || n == 14 || n == 15 || n == 17 || n == 23
        || n == 24 || n == 26 || n == 30 || n == 31) && sel == 0
    ||| n == 16 && sel <= 3
    ||| (n == 18 || n == 19 || n == 25 || n == 27)
    ||| (n == 28 || n == 29) && sel <= 1
}

/// The value stored for an implemented `(number, select)` pair.
pub open spec fn cop0_reg_spec(c: Cop0, n: u32, sel: u32) -> u32 {
    if n == 0 {
        c.index
    } else if n == 1 {
        c.random
    } else if n == 2 {
        c.entry_lo0
    } else if n == 3 {
        c.entry_lo1
    } else if n == 4 {
        c.context
    } else if n == 5 {
        c.page_mask
    } else if n == 6 {
        c.wired
    } else if n == 8 {
        c.bad_v_addr
    } else if n == 9 {
        c.count
    } else if n == 10 {
        c.entry_hi
    } else if n == 11 {
        c.compare
    } else if n == 12 {
        c.status
    } else if n == 13 {
        c.cause
    } else if n == 14 {
        c.epc
    } else if n == 15 {
        c.prid
    } else if n == 16 {
        if sel == 0 {
            c.config0
        } else if sel == 1 {
            c.config1
        } else if sel == 2 {
            c.config2
        } else {
            c.config3
        }
    } else if n == 17 {
        c.ll_addr
    } else if n == 18 {
        c.watch_lo
    } else if n == 19 {
        c.watch_hi
    } else if n == 23 {
        c.debug
    } else if n == 24 {
        c.depc
    } else if n == 25 {
        c.perf_cnt
    } else if n == 26 {
        c.err_ctl
    } else if n == 27 {
        c.cache_err
    } else if n == 28 {
        if sel == 0 {
            c.tag_lo
        } else {
            c.data_lo
        }
    } else if n == 29 {
        if sel == 0 {
            c.tag_hi
        } else {
            c.data_hi
        }
    } else if n == 30 {
        c.error_epc
    } else {
        c.desave
    }
}

impl Cop0 {
    /// Creates a zeroed register file.
    pub fn new() -> (r: Cop0)
        ensures
            forall|n: u32, sel: u32| cop0_reg_implemented(n, sel) ==> cop0_reg_spec(r, n, sel)
                == 0,
    {
        Cop0 {
            index: 0,
            random: 0,
            entry_lo0: 0,
            entry_lo1: 0,
            context: 0,
            page_mask: 0,
            wired: 0,
            bad_v_addr: 0,
            count: 0,
            entry_hi: 0,
            compare: 0,
            status: 0,
            cause: 0,
            epc: 0,
            prid: 0,
            config0: 0,
            config1: 0,
            config2: 0,
            config3: 0,
            ll_addr: 0,
            watch_lo: 0,
            watch_hi: 0,
            debug: 0,
            depc: 0,
            perf_cnt: 0,
            err_ctl: 0,
            cache_err: 0,
            tag_lo: 0,
            data_lo: 0,
            tag_hi: 0,
            data_hi: 0,
            error_epc: 0,
            desave: 0,
        }
    }

    /// Reads register `(n, sel)`.
    pub fn read_reg(&self, n: u32, sel: u32) -> (r: u32)
        requires
            cop0_reg_implemented(n, sel),
        ensures
            r == cop0_reg_spec(*self, n, sel),
    {
        match (n, sel) {
            (0, 0) => self.index,
            (1, 0) => self.random,
            (2, 0) => self.entry_lo0,
            (3, 0) => self.entry_lo1,
            (4, 0) => self.context,
            (5, 0) => self.page_mask,
            (6, 0) => self.wired,
            (8, 0) => self.bad_v_addr,
            (9, 0) => self.count,
            (10, 0) => self.entry_hi,
            (11, 0) => self.compare,
            (12, 0) => self.status,
            (13, 0) => self.cause,
            (14, 0) => self.epc,
            (15, 0) => self.prid,
            (16, 0) => self.config0,
            (16, 1) => self.config1,
            (16, 2) => self.config2,
            (16, 3) => self.config3,
            (17, 0) => self.ll_addr,
            (18, _) => self.watch_lo,
            (19, _) => self.watch_hi,
            (23, 0) => self.debug,
            (24, 0) => self.depc,
            (25, _) => self.perf_cnt,
            (26, 0) => self.err_ctl,
            (27, _) => self.cache_err,
            (28, 0) => self.tag_lo,
            (28, 1) => self.data_lo,
            (29, 0) => self.tag_hi,
            (29, 1) => self.data_hi,
            (30, 0) => self.error_epc,
            (31, 0) => self.desave,
            _ => 0,
        }
    }

    /// Writes register `(n, sel)`; every other register keeps its value.
    pub fn write_reg(&mut self, n: u32, sel: u32, val: u32)
        requires
            cop0_reg_implemented(n, sel),
        ensures
            cop0_reg_spec(*final(self), n, sel) == val,
            forall|m: u32, s: u32| cop0_reg_implemented(m, s) && !(m == n && (s == sel || (m != 16
                && m != 28 && m != 29))) ==> cop0_reg_spec(*final(self), m, s) == cop0_reg_spec(
                *old(self),
                m,
                s,
            ),
    {
        match (n, sel) {
            (0, 0) => self.index = val,
            (1, 0) => self.random = val,
            (2, 0) => self.entry_lo0 = val,
            (3, 0) => self.entry_lo1 = val,
            (4, 0) => self.context = val,
            (5, 0) => self.page_mask = val,
            (6, 0) => self.wired = val,
            (8, 0) => self.bad_v_addr = val,
            (9, 0) => self.count = val,
            (10, 0) => self.entry_hi = val,
            (11, 0) => self.compare = val,
            (12, 0) => self.status = val,
            (13, 0) => self.cause = val,
            (14, 0) => self.epc = val,
            (15, 0) => self.prid = val,
            (16, 0) => self.config0 = val,
            (16, 1) => self.config1 = val,
            (16, 2) => self.config2 = val,
            (16, 3) => self.config3 = val,
            (17, 0) => self.ll_addr = val,
            (18, _) => self.watch_lo = val,
            (19, _) => self.watch_hi = val,
            (23, 0) => self.debug = val,
            (24, 0) => self.depc = val,
            (25, _) => self.perf_cnt = val,
            (26, 0) => self.err_ctl = val,
            (27, _) => self.cache_err = val,
            (28, 0) => self.tag_lo = val,
            (28, 1) => self.data_lo = val,
            (29, 0) => self.tag_hi = val,
            (29, 1) => self.data_hi = val,
            (30, 0) => self.error_epc = val,
            (31, 0) => self.desave = val,
            _ => {},
        }
    }
}

} // verus!
