//! Memory accounting: an aggregated usage counter, a pressure
//! classification against a configured ceiling, and the events a sampling
//! loop emits.  The sampling loop itself runs outside the core and feeds
//! these decisions.

use vstd::prelude::*;

verus! {

/// Memory pressure, bucketed by the ratio of usage to the ceiling.
#[derive(Debug, Clone, Copy, PartialEq, Eq, Structural)]
pub enum MemoryPressureLevel {
    /// At most half of the ceiling is used.
    Low,
    /// More than half, at most four fifths.
    Medium,
    /// More than four fifths, at most ninety-five hundredths.
    High,
    /// More than ninety-five hundredths.
    Critical,
}

/// The pressure classification: thresholds at 50%, 80% and 95% of the
/// ceiling.
pub open spec fn pressure_of(usage: int, max: int) -> MemoryPressureLevel {
    if usage * 100 > max * 95 {
        MemoryPressureLevel::Critical
    } else if usage * 100 > max * 80 {
        MemoryPressureLevel::High
    } else if usage * 100 > max * 50 {
        MemoryPressureLevel::Medium
    } else {
        MemoryPressureLevel::Low
    }
}

/// A memory statistics snapshot.  Hit rates are in thousandths; the check
/// tick is a logical counter.
#[derive(Debug, Clone, Copy, PartialEq, Eq, Structural)]
pub struct MemoryStats {
    /// Current memory usage in bytes.
    pub current_usage: u64,
    /// Configured ceiling in bytes.
    pub max_usage: u64,
    /// Pressure level at the last check.
    pub pressure_level: MemoryPressureLevel,
    /// Document cache size in bytes.
    pub document_cache_size: u64,
    /// Index cache size in bytes.
    pub index_cache_size: u64,
    /// Query cache size in bytes.
    pub query_cache_size: u64,
    /// Document cache hit rate in thousandths.
    pub document_cache_hit_rate: u64,
    /// Index cache hit rate in thousandths.
    pub index_cache_hit_rate: u64,
    /// Query cache hit rate in thousandths.
    pub query_cache_hit_rate: u64,
    /// Logical tick of the last pressure check.
    pub last_check_time: u64,
}

/// An event the sampling loop reports to the caches.
#[derive(Debug, Clone, Copy, PartialEq, Eq, Structural)]
pub enum MemoryEvent {
    /// The pressure level crossed a threshold.
    PressureChanged(MemoryPressureLevel),
    /// Usage exceeded the ceiling.
    MemoryExceeded { current: u64, max: u64 },
    /// Caches must free this many bytes to come back under four fifths of
    /// the ceiling.
    EvictionRequired { bytes_to_free: u64 },
    /// A new statistics snapshot was published.
    StatsUpdated(MemoryStats),
}

/// Memory usage accounting and pressure classification.
pub struct MemoryManager {
    max_memory: u64,
    current_usage: u64,
    stats: MemoryStats,
    running: bool,
}

impl MemoryManager {
    /// The configured ceiling.
    pub closed spec fn max_memory_spec(&self) -> int {
        self.max_memory as int
    }

    /// The tracked usage.
    pub closed spec fn current_usage_spec(&self) -> int {
        self.current_usage as int
    }

    /// The published snapshot.
    pub closed spec fn stats_spec(&self) -> MemoryStats {
        self.stats
    }

    /// Whether the sampling loop should run.
    pub closed spec fn running_spec(&self) -> bool {
        self.running
    }

    /// Create a new memory manager with the given ceiling.
    pub fn new(max_memory: u64) -> (r: Self)
        ensures
            r.max_memory_spec() == max_memory,
            r.current_usage_spec() == 0,
            r.running_spec() == false,
            r.stats_spec().current_usage == 0,
            r.stats_spec().max_usage == max_memory,
            r.stats_spec().pressure_level == MemoryPressureLevel::Low,
    {
        MemoryManager {
            max_memory,
            current_usage: 0,
            stats: MemoryStats {
                current_usage: 0,
                max_usage: max_memory,
                pressure_level: MemoryPressureLevel::Low,
                document_cache_size: 0,
                index_cache_size: 0,
                query_cache_size: 0,
                document_cache_hit_rate: 0,
                index_cache_hit_rate: 0,
                query_cache_hit_rate: 0,
                last_check_time: 0,
            },
            running: false,
        }
    }

    /// Mark the sampling loop as running.
    pub fn start(&mut self)
        ensures
            final(self).running_spec(),
            final(self).max_memory_spec() == old(self).max_memory_spec(),
            final(self).current_usage_spec() == old(self).current_usage_spec(),
            final(self).stats_spec() == old(self).stats_spec(),
    {
        self.running = true;
    }

    /// Mark the sampling loop as stopped.
    pub fn stop(&mut self)
        ensures
            !final(self).running_spec(),
            final(self).max_memory_spec() == old(self).max_memory_spec(),
            final(self).current_usage_spec() == old(self).current_usage_spec(),
            final(self).stats_spec() == old(self).stats_spec(),
    {
        self.running = false;
    }

    /// Account an allocation; the result says whether usage stays within
    /// the ceiling.  On overshoot the next `sample` decides the events to
    /// report.
    pub fn allocate(&mut self, size: u64) -> (r: bool)
        requires
            old(self).current_usage_spec() + size <= u64::MAX,
        ensures
            final(self).current_usage_spec() == old(self).current_usage_spec() + size,
            final(self).max_memory_spec() == old(self).max_memory_spec(),
            final(self).stats_spec() == old(self).stats_spec(),
            final(self).running_spec() == old(self).running_spec(),
            r == (final(self).current_usage_spec() <= final(self).max_memory_spec()),
    {
        self.current_usage = self.current_usage + size;
        self.current_usage <= self.max_memory
    }

    /// Account a release, saturating at zero.
    pub fn free(&mut self, size: u64)
        ensures
            final(self).current_usage_spec() == (if old(self).current_usage_spec() >= size {
                old(self).current_usage_spec() - size
            } else {
                0int
            }),
            final(self).max_memory_spec() == old(self).max_memory_spec(),
            final(self).stats_spec() == old(self).stats_spec(),
            final(self).running_spec() == old(self).running_spec(),
    {
        if self.current_usage >= size {
            self.current_usage = self.current_usage - size;
        } else {
            self.current_usage = 0;
        }
    }

    /// Whether the sampling loop should run.
    pub fn is_running(&self) -> (r: bool)
        ensures
            r == self.running_spec(),
    {
        self.running
    }

    /// The tracked usage.
    pub fn current_usage(&self) -> (r: u64)
        ensures
            r == self.current_usage_spec(),
    {
        self.current_usage
    }

    /// The configured ceiling.
    pub fn max_memory(&self) -> (r: u64)
        ensures
            r == self.max_memory_spec(),
    {
        self.max_memory
    }

    /// The pressure level of the published snapshot.
    pub fn pressure_level(&self) -> (r: MemoryPressureLevel)
        ensures
            r == self.stats_spec().pressure_level,
    {
        self.stats.pressure_level
    }

    /// The published snapshot.
    pub fn stats(&self) -> (r: MemoryStats)
        ensures
            r == self.stats_spec(),
    {
        self.stats
    }

    /// Replace the published snapshot.
    pub fn update_stats(&mut self, stats: MemoryStats)
        ensures
            final(self).stats_spec() == stats,
            final(self).max_memory_spec() == old(self).max_memory_spec(),
            final(self).current_usage_spec() == old(self).current_usage_spec(),
            final(self).running_spec() == old(self).running_spec(),
    {
        self.stats = stats;
    }

    /// One sampling step: classify the current usage, publish a snapshot
    /// at the given tick, and decide the events to emit.  The events are
    /// exactly: a pressure change when the level moved, and, when usage
    /// exceeds the ceiling, the overshoot report and an eviction request
    /// bringing usage back under four fifths of the ceiling.
    pub fn sample(&mut self, now: u64) -> (events: Vec<MemoryEvent>)
        ensures
            final(self).max_memory_spec() == old(self).max_memory_spec(),
            final(self).current_usage_spec() == old(self).current_usage_spec(),
            final(self).running_spec() == old(self).running_spec(),
            final(self).stats_spec() == (MemoryStats {
                current_usage: old(self).current_usage_spec() as u64,
                pressure_level: pressure_of(
                    old(self).current_usage_spec(),
                    old(self).max_memory_spec(),
                ),
                last_check_time: now,
                ..old(self).stats_spec()
            }),
            events@ == Self::sample_events(
                old(self).stats_spec().pressure_level,
                old(self).current_usage_spec() as u64,
                old(self).max_memory_spec() as u64,
            ),
    {
        let usage = self.current_usage;
        let max = self.max_memory;
        let level = classify(usage, max);
        let old_level = self.stats.pressure_level;
        self.stats = MemoryStats {
            current_usage: usage,
            pressure_level: level,
            last_check_time: now,
            ..self.stats
        };
        let mut events: Vec<MemoryEvent> = Vec::new();
        if !level_eq(level, old_level) {
            events.push(MemoryEvent::PressureChanged(level));
        }
        if usage > max {
            events.push(MemoryEvent::MemoryExceeded { current: usage, max });
            let target = max / 5 * 4;
            let bytes_to_free = usage - target;
            events.push(MemoryEvent::EvictionRequired { bytes_to_free });
        }
        proof {
            assert(events@ =~= Self::sample_events(
                old(self).stats_spec().pressure_level,
                usage,
                max,
            ));
        }
        events
    }

    /// The events one sampling step emits.
    pub open spec fn sample_events(
        old_level: MemoryPressureLevel,
        usage: u64,
        max: u64,
    ) -> Seq<MemoryEvent> {
        let level = pressure_of(usage as int, max as int);
        let base: Seq<MemoryEvent> = if level != old_level {
            seq![MemoryEvent::PressureChanged(level)]
        } else {
            Seq::empty()
        };
        if usage > max {
            base + seq![
                MemoryEvent::MemoryExceeded { current: usage, max },
                MemoryEvent::EvictionRequired {
                    bytes_to_free: (usage - (max / 5 * 4)) as u64,
                },
            ]
        } else {
            base
        }
    }
}

/// The executable pressure classification.
fn classify(usage: u64, max: u64) -> (r: MemoryPressureLevel)
    ensures
        r == pressure_of(usage as int, max as int),
{
    if (usage as u128) * 100 > (max as u128) * 95 {
        MemoryPressureLevel::Critical
    } else if (usage as u128) * 100 > (max as u128) * 80 {
        MemoryPressureLevel::High
    } else if (usage as u128) * 100 > (max as u128) * 50 {
        MemoryPressureLevel::Medium
    } else {
        MemoryPressureLevel::Low
    }
}

/// Structural equality of pressure levels.
fn level_eq(a: MemoryPressureLevel, b: MemoryPressureLevel) -> (r: bool)
    ensures
        r == (a == b),
{
    a == b
}

} // verus!
