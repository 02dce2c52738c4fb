use vstd::prelude::*;

use std::collections::VecDeque;

use crate::names::{has_prefix, starts_with_chars};
use crate::text::chars_of;

verus! {

/// Severity of a console message.
#[derive(Clone, Copy, Debug, PartialEq, Eq, Structural)]
pub enum LogLevel {
    Error,
    Warn,
    Info,
    Debug,
}

/// The console level for a `log` crate level given by its numeric value
/// (1 = error, 2 = warn, 3 = info, 4 = debug, 5 = trace); trace folds into debug.
pub open spec fn level_for_rank(rank: usize) -> LogLevel {
    if rank <= 1 {
        LogLevel::Error
    } else if rank == 2 {
        LogLevel::Warn
    } else if rank == 3 {
        LogLevel::Info
    } else {
        LogLevel::Debug
    }
}

impl LogLevel {
    /// The console level of a numeric `log` level; trace folds into debug.
    pub fn from_rank(rank: usize) -> (l: LogLevel)
        ensures
            l == level_for_rank(rank),
    {
        if rank <= 1 {
            LogLevel::Error
        } else if rank == 2 {
            LogLevel::Warn
        } else if rank == 3 {
            LogLevel::Info
        } else {
            LogLevel::Debug
        }
    }
}

/// One console line. The timestamp is in microseconds since the buffer was created.
#[derive(Clone, Debug)]
pub struct LogEntry {
    pub level: LogLevel,
    pub message: String,
    pub timestamp_micros: u64,
}

/// Number of entries of level `l` in `h`.
pub open spec fn count_level(h: Seq<LogEntry>, l: LogLevel) -> nat
    decreases h.len(),
{
    if h.len() == 0 {
        0
    } else {
        count_level(h.drop_last(), l) + if h.last().level == l {
            1nat
        } else {
            0nat
        }
    }
}

/// The last `n` entries of `h` (all of them when there are fewer).
pub open spec fn last_n(h: Seq<LogEntry>, n: nat) -> Seq<LogEntry> {
    if h.len() <= n {
        h
    } else {
        h.subrange(h.len() - n, h.len() as int)
    }
}

/// A bounded console buffer: keeps the most recent `max_entries` messages and
/// running per-level counts since the last clear.
pub struct LogRing {
    entries: VecDeque<LogEntry>,
    max_entries: usize,
    error_count: u32,
    warn_count: u32,
    info_count: u32,
    debug_count: u32,
    history: Ghost<Seq<LogEntry>>,
}

impl LogRing {
    /// Everything pushed since creation or the last clear.
    pub closed spec fn history(&self) -> Seq<LogEntry> {
        self.history@
    }

    pub closed spec fn entries_view(&self) -> Seq<LogEntry> {
        self.entries@
    }

    pub closed spec fn capacity(&self) -> nat {
        self.max_entries as nat
    }

    pub closed spec fn counts_view(&self) -> (u32, u32, u32, u32) {
        (self.error_count, self.warn_count, self.info_count, self.debug_count)
    }

    /// How many messages the buffer keeps: `max_entries`, but always the
    /// latest one (a buffer made with room for none still shows the last
    /// message, since a push drops the oldest entry before adding the new one).
    pub open spec fn kept(&self) -> nat {
        if self.capacity() == 0 {
            1
        } else {
            self.capacity()
        }
    }

    /// The buffer holds the last `kept()` pushed messages, and each count is
    /// the number of pushed messages of its level, modulo 2^32.
    pub open spec fn wf(&self) -> bool {
        &&& self.entries_view() == last_n(self.history(), self.kept())
        &&& self.counts_view().0 as nat == count_level(self.history(), LogLevel::Error) % 0x1_0000_0000
        &&& self.counts_view().1 as nat == count_level(self.history(), LogLevel::Warn) % 0x1_0000_0000
        &&& self.counts_view().2 as nat == count_level(self.history(), LogLevel::Info) % 0x1_0000_0000
        &&& self.counts_view().3 as nat == count_level(self.history(), LogLevel::Debug) % 0x1_0000_0000
    }

    pub fn new(max_entries: usize) -> (r: Self)
        ensures
            r.wf(),
            r.capacity() == max_entries,
            r.history().len() == 0,
            r.entries_view().len() == 0,
    {
        LogRing {
            entries: VecDeque::new(),
            max_entries,
            error_count: 0,
            warn_count: 0,
            info_count: 0,
            debug_count: 0,
            history: Ghost(Seq::empty()),
        }
    }

    /// Appends a message, dropping the oldest one when the buffer is full, and
    /// bumps the count of its level.
    pub fn push(&mut self, level: LogLevel, message: String, timestamp_micros: u64)
        requires
            old(self).wf(),
        ensures
            final(self).wf(),
            final(self).capacity() == old(self).capacity(),
            final(self).history() == old(self).history().push(
                LogEntry { level, message, timestamp_micros },
            ),
            final(self).entries_view() == (if old(self).entries_view().len() > 0 && old(self).entries_view().len()
                >= old(self).capacity() {
                old(self).entries_view().drop_first()
            } else {
                old(self).entries_view()
            }).push(LogEntry { level, message, timestamp_micros }),
    {
        let ghost e = LogEntry { level, message, timestamp_micros };
        let ghost h = self.history@;
        match level {
            LogLevel::Error => self.error_count = self.error_count.wrapping_add(1),
            LogLevel::Warn => self.warn_count = self.warn_count.wrapping_add(1),
            LogLevel::Info => self.info_count = self.info_count.wrapping_add(1),
            LogLevel::Debug => self.debug_count = self.debug_count.wrapping_add(1),
        }
        if self.entries.len() >= self.max_entries {
            self.entries.pop_front();
        }
        self.entries.push_back(LogEntry { level, message, timestamp_micros });
        proof {
            self.history@ = h.push(e);
            let h2 = h.push(e);
            assert(h2.drop_last() =~= h);
            let n = self.kept();
            if h.len() >= n {
                assert(last_n(h2, n) =~= last_n(h, n).drop_first().push(e));
            } else {
                assert(last_n(h2, n) =~= h2);
            }
        }
    }

    /// Empties the buffer and resets every count.
    pub fn clear(&mut self)
        requires
            old(self).wf(),
        ensures
            final(self).wf(),
            final(self).capacity() == old(self).capacity(),
            final(self).history().len() == 0,
            final(self).entries_view().len() == 0,
            final(self).counts_view() == (0u32, 0u32, 0u32, 0u32),
    {
        self.entries.clear();
        self.error_count = 0;
        self.warn_count = 0;
        self.info_count = 0;
        self.debug_count = 0;
        proof {
            self.history@ = Seq::empty();
        }
    }

    /// (error, warn, info, debug) running counts.
    pub fn counts(&self) -> (r: (u32, u32, u32, u32))
        ensures
            r == self.counts_view(),
    {
        (self.error_count, self.warn_count, self.info_count, self.debug_count)
    }

    /// The buffered messages, oldest first.
    pub fn entries(&self) -> (r: &VecDeque<LogEntry>)
        ensures
            r@ == self.entries_view(),
    {
        &self.entries
    }

    pub fn max_entries(&self) -> (n: usize)
        ensures
            n == self.capacity(),
    {
        self.max_entries
    }
}

/// Which levels the console shows.
#[derive(Clone, Copy, Debug, PartialEq, Eq, Structural)]
pub struct LevelFilter {
    pub error: bool,
    pub warn: bool,
    pub info: bool,
    pub debug: bool,
}

/// Whether the console shows messages of level `l`.
pub open spec fn shows(f: LevelFilter, l: LogLevel) -> bool {
    match l {
        LogLevel::Error => f.error,
        LogLevel::Warn => f.warn,
        LogLevel::Info => f.info,
        LogLevel::Debug => f.debug,
    }
}

/// Each level is shown by its own toggle and by no other: an error exactly
/// when `error` is on, a warning exactly when `warn` is, an info message
/// exactly when `info` is, a debug message exactly when `debug` is.
pub proof fn law_filter_toggles(f: LevelFilter)
    ensures
        shows(f, LogLevel::Error) == f.error,
        shows(f, LogLevel::Warn) == f.warn,
        shows(f, LogLevel::Info) == f.info,
        shows(f, LogLevel::Debug) == f.debug,
{
}

impl LogRing {
    /// Positions, oldest first, of the buffered messages the filter shows.
    pub fn visible_positions(&self, f: LevelFilter) -> (r: Vec<usize>)
        ensures
            forall|k: int| 0 <= k < r@.len() ==> (#[trigger] r@[k] as int) < self.entries_view().len()
                && shows(f, self.entries_view()[r@[k] as int].level),
            forall|a: int, b: int| 0 <= a < b < r@.len() ==> #[trigger] r@[a] < #[trigger] r@[b],
            forall|i: int| 0 <= i < self.entries_view().len() && shows(f, self.entries_view()[i].level) ==> r@.contains(
                i as usize,
            ),
    {
        let mut r: Vec<usize> = Vec::new();
        let mut i: usize = 0;
        while i < self.entries.len()
            invariant
                i <= self.entries@.len(),
                self.entries@ == self.entries_view(),
                forall|k: int| 0 <= k < r@.len() ==> (#[trigger] r@[k] as int) < i && shows(f, self.entries_view()[r@[k] as int].level),
                forall|a: int, b: int| 0 <= a < b < r@.len() ==> #[trigger] r@[a] < #[trigger] r@[b],
                forall|j: int| 0 <= j < i && shows(f, self.entries_view()[j].level) ==> r@.contains(j as usize),
            decreases self.entries@.len() - i,
        {
            let show = match self.entries[i].level {
                LogLevel::Error => f.error,
                LogLevel::Warn => f.warn,
                LogLevel::Info => f.info,
                LogLevel::Debug => f.debug,
            };
            if show {
                let ghost before = r@;
                r.push(i);
                assert forall|j: int| 0 <= j < i + 1 && shows(f, self.entries_view()[j].level) implies r@.contains(j as usize) by {
                    if j < i {
                        let q = choose|q: int| 0 <= q < before.len() && before[q] == j as usize;
                        assert(r@[q] == j as usize);
                    } else {
                        assert(r@[before.len() as int] == i);
                    }
                }
            }
            i = i + 1;
        }
        r
    }
}

/// The buffer never holds more than its capacity (one message for a buffer
/// made with room for none), and holds exactly the most recent messages,
/// oldest first.
pub proof fn law_log_ring_keeps_latest(r: &LogRing)
    requires
        r.wf(),
    ensures
        r.entries_view().len() <= r.kept(),
        r.capacity() > 0 ==> r.entries_view().len() <= r.capacity(),
        r.entries_view().len() == if r.history().len() <= r.kept() {
            r.history().len()
        } else {
            r.kept()
        },
        forall|k: int|
            0 <= k < r.entries_view().len() ==> #[trigger] r.entries_view()[k] == r.history()[r.history().len()
                - r.entries_view().len() + k],
{
}

/// Each running count is the number of messages of its level pushed since the
/// last clear (modulo 2^32), however many have been dropped from the buffer.
pub proof fn law_log_counts(r: &LogRing)
    requires
        r.wf(),
    ensures
        r.counts_view().0 as nat == count_level(r.history(), LogLevel::Error) % 0x1_0000_0000,
        r.counts_view().1 as nat == count_level(r.history(), LogLevel::Warn) % 0x1_0000_0000,
        r.counts_view().2 as nat == count_level(r.history(), LogLevel::Info) % 0x1_0000_0000,
        r.counts_view().3 as nat == count_level(r.history(), LogLevel::Debug) % 0x1_0000_0000,
{
}

/// Whether the console keeps a log record: records of the engine's own
/// modules (target starting with `clawdengine`) at any level, and warnings
/// and errors from anywhere. `level_rank` is the `log` level's number.
pub fn buffers_record(target: &str, level_rank: usize) -> (b: bool)
    ensures
        b == (has_prefix(target@, "clawdengine"@) || level_rank <= 2),
{
    let t = chars_of(target);
    let p = chars_of("clawdengine");
    starts_with_chars(&t, &p) || level_rank <= 2
}

} // verus!
