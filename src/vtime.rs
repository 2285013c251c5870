//! Instruction counters per core and the virtual clock derived from them.

use vstd::prelude::*;

verus! {

/// `a + b` wrapped into 64 bits.
pub open spec fn wrap_add_u64(a: u64, b: u64) -> u64 {
    if a + b > u64::MAX {
        (a + b - 0x1_0000_0000_0000_0000) as u64
    } else {
        (a + b) as u64
    }
}

/// `a - b` wrapped into 64 bits.
pub open spec fn wrap_sub_u64(a: u64, b: u64) -> u64 {
    if a - b < 0 {
        (a - b + 0x1_0000_0000_0000_0000) as u64
    } else {
        (a - b) as u64
    }
}

/// `a + b` wrapped into a signed 64-bit value.
pub open spec fn wrap_add_i64(a: i64, b: i64) -> i64 {
    if a + b > i64::MAX {
        (a + b - 0x1_0000_0000_0000_0000) as i64
    } else if a + b < i64::MIN {
        (a + b + 0x1_0000_0000_0000_0000) as i64
    } else {
        (a + b) as i64
    }
}

/// `a - b` wrapped into a signed 128-bit value.
pub open spec fn wrap_sub_i128(a: i128, b: i128) -> i128 {
    if a - b > i128::MAX {
        (a - b - 0x1_0000_0000_0000_0000_0000_0000_0000_0000) as i128
    } else if a - b < i128::MIN {
        (a - b + 0x1_0000_0000_0000_0000_0000_0000_0000_0000) as i128
    } else {
        (a - b) as i128
    }
}

/// Executed-instruction counters, one per core.
#[derive(Debug)]
pub struct ICountPlugin {
    data: Vec<u64>,
}

impl View for ICountPlugin {
    type V = Seq<u64>;

    closed spec fn view(&self) -> Seq<u64> {
        self.data@
    }
}

impl ICountPlugin {
    /// `core_count` counters at zero.
    pub fn new(core_count: usize) -> (r: Self)
        ensures
            r@ == Seq::new(core_count as nat, |i: int| 0u64),
    {
        let mut data: Vec<u64> = Vec::new();
        let mut i: usize = 0;
        while i < core_count
            invariant
                i <= core_count,
                data@ == Seq::new(i as nat, |j: int| 0u64),
            decreases core_count - i,
        {
            data.push(0);
            proof {
                assert(data@ =~= Seq::new(i as nat + 1, |j: int| 0u64));
            }
            i = i + 1;
        }
        ICountPlugin { data }
    }

    /// The counters, by core.
    pub fn get_icounts(&self) -> (r: Vec<u64>)
        ensures
            r@ == self@,
    {
        let mut out: Vec<u64> = Vec::new();
        let mut i: usize = 0;
        while i < self.data.len()
            invariant
                i <= self.data@.len(),
                out@ == self.data@.take(i as int),
            decreases self.data@.len() - i,
        {
            out.push(self.data[i]);
            proof {
                assert(out@ =~= self.data@.take(i as int + 1));
            }
            i = i + 1;
        }
        proof {
            assert(out@ =~= self.data@);
        }
        out
    }

    /// Adds `count` executed instructions to core `core_id`'s counter (wrapping).
    pub fn increase_icount(&mut self, core_id: u8, count: u64)
        requires
            (core_id as int) < old(self)@.len(),
        ensures
            final(self)@ == old(self)@.update(
                core_id as int,
                wrap_add_u64(old(self)@[core_id as int], count),
            ),
    {
        let c = core_id as usize;
        let v = self.data[c].wrapping_add(count);
        self.data.set(c, v);
    }

    /// Sets every counter back to zero.
    pub fn reset(&mut self)
        ensures
            final(self)@ == Seq::new(old(self)@.len(), |i: int| 0u64),
    {
        let n = self.data.len();
        let mut i: usize = 0;
        while i < n
            invariant
                i <= n,
                n == self.data@.len(),
                n == old(self)@.len(),
                forall|j: int| 0 <= j < i ==> self.data@[j] == 0,
            decreases n - i,
        {
            self.data.set(i, 0);
            i = i + 1;
        }
        proof {
            assert(self@ =~= Seq::new(old(self)@.len(), |i: int| 0u64));
        }
    }
}

/// The largest counter increase over the first `n` cores (wrapping differences), or 0.
pub open spec fn max_increase(now: Seq<u64>, last: Seq<u64>, n: int) -> u64
    decreases n,
{
    if n <= 0 {
        0
    } else {
        let m = max_increase(now, last, n - 1);
        let d = wrap_sub_u64(now[n - 1], last[n - 1]);
        if d > m {
            d
        } else {
            m
        }
    }
}

/// How far the virtual clock moves: the largest counter increase, or the real time elapsed
/// when no core executed anything; nothing when ticks are off.
pub open spec fn clock_step(
    last_real_time: i128,
    last_icounts: Seq<u64>,
    real_time: i128,
    icounts: Seq<u64>,
    tick_enabled: bool,
) -> i64 {
    if !tick_enabled {
        0
    } else {
        let m = max_increase(icounts, last_icounts, icounts.len() as int);
        if m == 0 {
            wrap_sub_i128(real_time, last_real_time) as i64
        } else {
            m as i64
        }
    }
}

/// The state the virtual clock is derived from.
#[derive(Debug)]
pub struct VirtualTimeContext {
    last_real_time: i128,
    last_icounts: Vec<u64>,
    advanced_vclock: i64,
}

impl VirtualTimeContext {
    pub closed spec fn spec_last_real_time(&self) -> i128 {
        self.last_real_time
    }

    pub closed spec fn spec_last_icounts(&self) -> Seq<u64> {
        self.last_icounts@
    }

    pub closed spec fn spec_advanced_vclock(&self) -> i64 {
        self.advanced_vclock
    }

    /// A context for `core_count` cores, with nothing advanced.
    pub fn new(core_count: usize) -> (r: Self)
        ensures
            r.spec_last_real_time() == 0,
            r.spec_last_icounts() == Seq::new(core_count as nat, |i: int| 0u64),
            r.spec_advanced_vclock() == 0,
    {
        let counters = ICountPlugin::new(core_count);
        VirtualTimeContext { last_real_time: 0, last_icounts: counters.get_icounts(), advanced_vclock: 0 }
    }

    /// Forgets every observation.
    pub fn reset(&mut self)
        ensures
            final(self).spec_last_real_time() == 0,
            final(self).spec_last_icounts() == Seq::new(old(self).spec_last_icounts().len(), |i: int| 0u64),
            final(self).spec_advanced_vclock() == 0,
    {
        let counters = ICountPlugin::new(self.last_icounts.len());
        self.last_real_time = 0;
        self.last_icounts = counters.get_icounts();
        self.advanced_vclock = 0;
    }

    /// Advances the clock for the counters and real time observed now, records them, and
    /// returns the virtual time: the advanced clock plus the snapshot clock (wrapping).
    pub fn calculate_virtual_time(
        &mut self,
        real_time: i128,
        icounts: &Vec<u64>,
        tick_enabled: bool,
        snapshot_clock: i64,
    ) -> (r: i64)
        requires
            icounts@.len() == old(self).spec_last_icounts().len(),
        ensures
            final(self).spec_advanced_vclock() == wrap_add_i64(
                old(self).spec_advanced_vclock(),
                clock_step(
                    old(self).spec_last_real_time(),
                    old(self).spec_last_icounts(),
                    real_time,
                    icounts@,
                    tick_enabled,
                ),
            ),
            final(self).spec_last_icounts() == icounts@,
            final(self).spec_last_real_time() == real_time,
            r == wrap_add_i64(final(self).spec_advanced_vclock(), snapshot_clock),
    {
        if tick_enabled {
            let mut max: u64 = 0;
            let mut i: usize = 0;
            while i < icounts.len()
                invariant
                    i <= icounts@.len(),
                    icounts@.len() == self.last_icounts@.len(),
                    max == max_increase(icounts@, self.last_icounts@, i as int),
                decreases icounts@.len() - i,
            {
                let d = icounts[i].wrapping_sub(self.last_icounts[i]);
                if d > max {
                    max = d;
                }
                i = i + 1;
            }
            let step: i64 = if max == 0 {
                #[verifier::truncate] (real_time.wrapping_sub(self.last_real_time) as i64)
            } else {
                #[verifier::truncate] (max as i64)
            };
            self.advanced_vclock = self.advanced_vclock.wrapping_add(step);
        }
        let mut fresh: Vec<u64> = Vec::new();
        let mut j: usize = 0;
        while j < icounts.len()
            invariant
                j <= icounts@.len(),
                fresh@ == icounts@.take(j as int),
            decreases icounts@.len() - j,
        {
            fresh.push(icounts[j]);
            proof {
                assert(fresh@ =~= icounts@.take(j as int + 1));
            }
            j = j + 1;
        }
        proof {
            assert(fresh@ =~= icounts@);
        }
        self.last_icounts = fresh;
        self.last_real_time = real_time;
        self.advanced_vclock.wrapping_add(snapshot_clock)
    }
}

} // verus!
