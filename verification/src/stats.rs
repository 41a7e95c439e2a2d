//! Dynamic execution statistics: instruction counts by encoding family, the
//! simulated cycle count, and wall-clock stamps for the run.

use vstd::prelude::*;
use crate::instr::Kind;
use crate::ram::{sat_add, sat_add64};

verus! {

/// Relies on `std::time::SystemTime::now` and `duration_since`: a wall-clock
/// reading in microseconds. Nothing is promised of the value.
#[verifier::external_body]
fn now_micros() -> u64 {
    match std::time::SystemTime::now().duration_since(std::time::UNIX_EPOCH) {
        Ok(d) => d.as_micros() as u64,
        Err(_) => 0,
    }
}

/// Counts retired instructions by family and simulated cycles, and stamps
/// the start and finish of the run.
pub struct StatsReporter {
    /// Retired R-type instructions.
    pub n_r: u64,
    /// Retired I-type instructions.
    pub n_i: u64,
    /// Retired J-type instructions.
    pub n_j: u64,
    /// Retired floating-point R-style instructions.
    pub n_fr: u64,
    /// Retired floating-point I-style instructions.
    pub n_fi: u64,
    /// Simulated cycles spent.
    pub n_cycles: u64,
    /// Wall-clock microseconds when the run started.
    pub start_at: Option<u64>,
    /// Wall-clock microseconds when the run finished.
    pub finish_at: Option<u64>,
}

impl StatsReporter {
    /// Total retired instructions.
    pub open spec fn total_spec(&self) -> int {
        self.n_r + self.n_i + self.n_j + self.n_fr + self.n_fi
    }

    /// Creates a zeroed reporter.
    pub fn new() -> (r: StatsReporter)
        ensures
            r.n_r == 0 && r.n_i == 0 && r.n_j == 0 && r.n_fr == 0 && r.n_fi == 0,
            r.n_cycles == 0,
            r.start_at is None,
            r.finish_at is None,
    {
        StatsReporter {
            n_r: 0,
            n_i: 0,
            n_j: 0,
            n_fr: 0,
            n_fi: 0,
            n_cycles: 0,
            start_at: None,
            finish_at: None,
        }
    }

    /// Stamps the start of the run.
    pub fn start(&mut self)
        ensures
            final(self).start_at is Some,
            *final(self) == (StatsReporter { start_at: final(self).start_at, ..*old(self) }),
    {
        self.start_at = Some(now_micros());
    }

    /// Stamps the end of the run.
    pub fn finish(&mut self)
        ensures
            final(self).finish_at is Some,
            *final(self) == (StatsReporter { finish_at: final(self).finish_at, ..*old(self) }),
    {
        self.finish_at = Some(now_micros());
    }

    /// Counts one retired instruction of the given family.
    pub fn add_instr(&mut self, kind: Kind)
        ensures
            final(self).n_cycles == old(self).n_cycles,
            final(self).start_at == old(self).start_at,
            final(self).finish_at == old(self).finish_at,
            final(self).n_r == (if kind == Kind::R {
                sat_add64(old(self).n_r, 1)
            } else {
                old(self).n_r
            }),
            final(self).n_i == (if kind == Kind::I {
                sat_add64(old(self).n_i, 1)
            } else {
                old(self).n_i
            }),
            final(self).n_j == (if kind == Kind::J {
                sat_add64(old(self).n_j, 1)
            } else {
                old(self).n_j
            }),
            final(self).n_fr == (if kind == Kind::FR {
                sat_add64(old(self).n_fr, 1)
            } else {
                old(self).n_fr
            }),
            final(self).n_fi == (if kind == Kind::FI {
                sat_add64(old(self).n_fi, 1)
            } else {
                old(self).n_fi
            }),
    {
        match kind {
            Kind::R => {
                self.n_r = sat_add(self.n_r, 1);
            },
            Kind::I => {
                self.n_i = sat_add(self.n_i, 1);
            },
            Kind::J => {
                self.n_j = sat_add(self.n_j, 1);
            },
            Kind::FR => {
                self.n_fr = sat_add(self.n_fr, 1);
            },
            Kind::FI => {
                self.n_fi = sat_add(self.n_fi, 1);
            },
        }
    }

    /// Adds simulated cycles (saturating).
    pub fn add_cycles(&mut self, cycles: u64)
        ensures
            *final(self) == (StatsReporter {
                n_cycles: sat_add64(old(self).n_cycles, cycles),
                ..*old(self)
            }),
    {
        self.n_cycles = sat_add(self.n_cycles, cycles);
    }

    /// The retired-instruction counts, by family, and their total
    /// (saturating).
    pub fn counts(&self) -> (r: (u64, u64, u64, u64, u64, u64))
        ensures
            r.0 == self.n_r && r.1 == self.n_i && r.2 == self.n_j && r.3 == self.n_fr && r.4
                == self.n_fi,
            r.5 == sat_add64(
                sat_add64(sat_add64(sat_add64(self.n_r, self.n_i), self.n_j), self.n_fr),
                self.n_fi,
            ),
    {
        let t = sat_add(sat_add(sat_add(sat_add(self.n_r, self.n_i), self.n_j), self.n_fr),
            self.n_fi);
        (self.n_r, self.n_i, self.n_j, self.n_fr, self.n_fi, t)
    }

    /// The cycle count and the wall-clock stamps, for the report.
    pub fn timing(&self) -> (r: (u64, Option<u64>, Option<u64>))
        ensures
            r.0 == self.n_cycles && r.1 == self.start_at && r.2 == self.finish_at,
    {
        (self.n_cycles, self.start_at, self.finish_at)
    }
}

} // verus!
