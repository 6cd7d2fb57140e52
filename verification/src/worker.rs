//! Work in the background: deferred index builds after opening, then maintenance on a timer.
use crate::decimal::{decimal_u64, parse_u64};
use vstd::prelude::*;

verus! {

/// How often maintenance runs, in milliseconds.
pub const TICK_MS: u64 = 100;

/// How long one wait for deferred work takes, in milliseconds.
pub const POLL_MS: u64 = 25;

/// How often it is asked whether a checkpoint is due, in milliseconds.
pub const CHECK_EVERY_MS: u64 = 1_000;

/// How long it takes from one attempt at a checkpoint to the next, in milliseconds.
pub const RETRY_AFTER_MS: u64 = 60_000;

/// What the environment sets of the background work.
#[derive(Clone, Copy, Debug, PartialEq, Eq, Structural)]
pub struct Settings {
    /// Seconds between two flushes of access times.
    pub touch_s: u64,
    /// Changes from which on the fast semantic index is rebuilt.
    pub min_mutations: u64,
    /// Logged bytes and records from which on a checkpoint is due.
    pub checkpoint_bytes: u64,
    pub checkpoint_records: u64,
}

/// The number that a variable is set to.
pub open spec fn set_number(var: Option<&str>) -> Option<u64> {
    match var {
        Some(s) => decimal_u64(s@),
        None => None,
    }
}

fn read_number(var: Option<&str>) -> (r: Option<u64>)
    ensures
        r == set_number(var),
{
    match var {
        Some(s) => parse_u64(s),
        None => None,
    }
}

/// The number that a variable is set to, if it is positive, or else the usual one.
pub open spec fn positive_setting(var: Option<&str>, usual: u64) -> u64 {
    match set_number(var) {
        Some(n) => if n > 0 {
            n
        } else {
            usual
        },
        None => usual,
    }
}

fn read_positive(var: Option<&str>, usual: u64) -> (r: u64)
    ensures
        r == positive_setting(var, usual),
{
    match read_number(var) {
        Some(n) => if n > 0 {
            n
        } else {
            usual
        },
        None => usual,
    }
}

/// Reads the settings from the variables `CHITTA_TOUCH_FLUSH_S`, `CHITTA_TURBO_REBUILD_MIN`,
/// `CHITTA_CHECKPOINT_WAL_MB` and `CHITTA_WAL_SNAPSHOT_RECORDS`.
pub fn read_settings(
    touch_flush_s: Option<&str>,
    turbo_rebuild_min: Option<&str>,
    checkpoint_wal_mb: Option<&str>,
    wal_snapshot_records: Option<&str>,
) -> (r: Settings)
    ensures
        r.touch_s == match set_number(touch_flush_s) {
            Some(n) => if n > 1 {
                n
            } else {
                1
            },
            None => 5,
        },
        r.min_mutations == match set_number(turbo_rebuild_min) {
            Some(n) => n,
            None => 64,
        },
        r.checkpoint_bytes == {
            let bytes = positive_setting(checkpoint_wal_mb, 16) * 1_048_576;
            if bytes <= u64::MAX {
                bytes
            } else {
                u64::MAX as int
            }
        },
        r.checkpoint_records == positive_setting(wal_snapshot_records, 20_000),
{
    let mb: u64 = read_positive(checkpoint_wal_mb, 16);
    Settings {
        touch_s: match read_number(touch_flush_s) {
            Some(n) => if n > 1 {
                n
            } else {
                1
            },
            None => 5,
        },
        min_mutations: match read_number(turbo_rebuild_min) {
            Some(n) => n,
            None => 64,
        },
        checkpoint_bytes: if mb > u64::MAX / 1_048_576 {
            u64::MAX
        } else {
            mb * 1_048_576
        },
        checkpoint_records: read_positive(wal_snapshot_records, 20_000),
    }
}

/// Whether everything is opened before the first request, which `CHITTA_STARTUP_EAGER` asks for.
pub fn opens_eagerly(startup_eager: Option<&str>) -> (r: bool)
    ensures
        r == (startup_eager matches Some(s) && s@ == "1"@),
{
    match startup_eager {
        Some(s) => crate::text::str_eq(s, "1"),
        None => false,
    }
}

/// How deferred work ended.
#[derive(Debug)]
pub enum StartupWork<T> {
    Complete(T),
    Stopped,
    Failed,
}

/// What is heard of deferred work.
#[derive(Debug)]
pub enum Report<T> {
    Result(T),
    Pending,
    /// The worker is gone and left no result.
    Gone,
}

/// Decides whether to go on waiting for deferred work. To stop comes first: `heard` is what is
/// heard when nobody has asked to stop.
pub fn poll_work<T>(stop: bool, heard: Report<T>) -> (r: Option<StartupWork<T>>)
    ensures
        stop ==> r == Some(StartupWork::<T>::Stopped),
        !stop ==> r == match heard {
            Report::Result(v) => Some(StartupWork::Complete(v)),
            Report::Pending => None,
            Report::Gone => Some(StartupWork::Failed),
        },
{
    if stop {
        return Some(StartupWork::Stopped);
    }
    match heard {
        Report::Result(v) => Some(StartupWork::Complete(v)),
        Report::Pending => None,
        Report::Gone => Some(StartupWork::Failed),
    }
}

/// The deferred work after opening, in order.
#[derive(Clone, Copy, Debug, PartialEq, Eq, Structural)]
pub enum Phase {
    Triplets,
    TripletReplication,
    Symbols,
    SpanStore,
    Hdc,
    EventTapeOrgans,
    EpisodeHdc,
    KeywordReverse,
    /// Load the fast semantic index from its cache.
    TurboCache,
    /// Build the fast semantic index, where there is anything to build.
    TurboBuild,
}

/// What comes after a phase.
#[derive(Clone, Copy, Debug, PartialEq, Eq, Structural)]
pub enum After {
    Run(Phase),
    /// Drop what the fast index has taken in, and begin maintenance.
    Maintain,
    Quit,
}

/// How a phase went. Loading from the cache completes with or without a hit.
#[derive(Clone, Copy, Debug, PartialEq, Eq, Structural)]
pub enum PhaseEnd {
    Complete,
    Missed,
    Stopped,
    Failed,
}

pub open spec fn rank(p: Phase) -> int {
    match p {
        Phase::Triplets => 0,
        Phase::TripletReplication => 1,
        Phase::Symbols => 2,
        Phase::SpanStore => 3,
        Phase::Hdc => 4,
        Phase::EventTapeOrgans => 5,
        Phase::EpisodeHdc => 6,
        Phase::KeywordReverse => 7,
        Phase::TurboCache => 8,
        Phase::TurboBuild => 9,
    }
}

/// The phases that everything after them needs.
pub open spec fn needed(p: Phase) -> bool {
    rank(p) <= 7
}

pub open spec fn follows(p: Phase, end: PhaseEnd, next: After) -> bool {
    if end == PhaseEnd::Stopped {
        next == After::Quit
    } else if needed(p) {
        if end == PhaseEnd::Complete {
            next matches After::Run(q) && rank(q) == rank(p) + 1
        } else {
            next == After::Quit
        }
    } else if p == Phase::TurboCache && end != PhaseEnd::Complete {
        next == After::Run(Phase::TurboBuild)
    } else {
        next == After::Maintain
    }
}

/// Decides what comes after a phase. A needed phase that does not complete ends the worker; the
/// fast index is built when its cache cannot be used, and is done without when that fails.
pub fn after_phase(p: Phase, end: PhaseEnd) -> (next: After)
    ensures
        follows(p, end, next),
{
    match (p, end) {
        (_, PhaseEnd::Stopped) => After::Quit,
        (Phase::TurboCache, PhaseEnd::Complete) => After::Maintain,
        (Phase::TurboCache, _) => After::Run(Phase::TurboBuild),
        (Phase::TurboBuild, _) => After::Maintain,
        (Phase::Triplets, PhaseEnd::Complete) => After::Run(Phase::TripletReplication),
        (Phase::TripletReplication, PhaseEnd::Complete) => After::Run(Phase::Symbols),
        (Phase::Symbols, PhaseEnd::Complete) => After::Run(Phase::SpanStore),
        (Phase::SpanStore, PhaseEnd::Complete) => After::Run(Phase::Hdc),
        (Phase::Hdc, PhaseEnd::Complete) => After::Run(Phase::EventTapeOrgans),
        (Phase::EventTapeOrgans, PhaseEnd::Complete) => After::Run(Phase::EpisodeHdc),
        (Phase::EpisodeHdc, PhaseEnd::Complete) => After::Run(Phase::KeywordReverse),
        (Phase::KeywordReverse, PhaseEnd::Complete) => After::Run(Phase::TurboCache),
        (_, _) => After::Quit,
    }
}

/// `phases` is a run of the deferred work, each phase started because of how the one before it
/// ended.
pub open spec fn startup_run(phases: Seq<Phase>, ends: Seq<PhaseEnd>) -> bool {
    &&& phases.len() > 0 && phases[0] == Phase::Triplets
    &&& ends.len() == phases.len()
    &&& forall|i: int|
        0 < i < phases.len() ==> follows(phases[i - 1], ends[i - 1], After::Run(#[trigger] phases[i]))
}

/// Every run of the deferred work goes through the phases in order, none of them twice.
pub proof fn phases_run_in_order(phases: Seq<Phase>, ends: Seq<PhaseEnd>, i: int)
    requires
        startup_run(phases, ends),
        0 <= i < phases.len(),
    ensures
        rank(phases[i]) == i,
        phases.len() <= 10,
    decreases i,
{
    if i > 0 {
        phases_run_in_order(phases, ends, i - 1);
    }
    if phases.len() > 10 {
        ranks_follow(phases, ends, 10);
    }
}

proof fn ranks_follow(phases: Seq<Phase>, ends: Seq<PhaseEnd>, i: int)
    requires
        startup_run(phases, ends),
        0 <= i < phases.len(),
    ensures
        rank(phases[i]) == i,
    decreases i,
{
    if i > 0 {
        ranks_follow(phases, ends, i - 1);
        assert(follows(phases[i - 1], ends[i - 1], After::Run(phases[i])));
    }
}

/// No phase that others need is passed over: whatever runs later, it has completed.
pub proof fn needed_phases_complete(phases: Seq<Phase>, ends: Seq<PhaseEnd>, i: int)
    requires
        startup_run(phases, ends),
        0 <= i < phases.len() - 1,
        needed(phases[i]),
    ensures
        ends[i] == PhaseEnd::Complete,
{
    assert(follows(phases[i], ends[i], After::Run(phases[i + 1])));
}

/// Which deferred indexes can be used.
#[derive(Clone, Copy, Debug)]
pub struct Readiness {
    pub symbols: bool,
    pub span_store: bool,
    pub hdc: bool,
    pub event_organs: bool,
    pub episode_hdc: bool,
    pub triplets: bool,
    /// Counts derived from the triplets are still those of the snapshot.
    pub replication_pending: bool,
}

/// Whether requests that need the deferred indexes can be served.
pub fn indexes_ready(f: &Readiness) -> (r: bool)
    ensures
        r == (f.symbols && f.span_store && f.hdc && f.event_organs && f.episode_hdc && f.triplets
            && !f.replication_pending),
{
    f.symbols && f.span_store && f.hdc && f.event_organs && f.episode_hdc && f.triplets
        && !f.replication_pending
}

/// When maintenance was last done. Times are in milliseconds on a clock that does not go back.
#[derive(Clone, Copy, Debug, PartialEq, Eq, Structural)]
pub struct Upkeep {
    pub touched_ms: u64,
    pub checked_ms: u64,
    pub attempted_ms: Option<u64>,
}

pub open spec fn has_passed(now_ms: u64, since_ms: u64, span_ms: int) -> bool {
    now_ms - since_ms >= span_ms
}

/// A checkpoint may be tried.
pub open spec fn may_attempt(last_ms: Option<u64>, now_ms: u64) -> bool {
    last_ms matches Some(t) ==> has_passed(now_ms, t, RETRY_AFTER_MS as int)
}

impl Upkeep {
    pub fn new(now_ms: u64) -> (r: Self)
        ensures
            r == (Upkeep { touched_ms: now_ms, checked_ms: now_ms, attempted_ms: None }),
    {
        Upkeep { touched_ms: now_ms, checked_ms: now_ms, attempted_ms: None }
    }

    /// Whether access times are to be flushed.
    pub fn touches_due(&self, settings: &Settings, now_ms: u64) -> (r: bool)
        requires
            self.touched_ms <= now_ms,
        ensures
            r == has_passed(now_ms, self.touched_ms, settings.touch_s * 1_000),
    {
        let span_ms: u128 = settings.touch_s as u128 * 1_000;
        (now_ms - self.touched_ms) as u128 >= span_ms
    }

    /// Access times were flushed.
    pub fn touched(&mut self, now_ms: u64)
        ensures
            *final(self) == (Upkeep { touched_ms: now_ms, ..*old(self) }),
    {
        self.touched_ms = now_ms;
    }

    /// Whether to ask if a checkpoint is due.
    pub fn check_due(&self, now_ms: u64) -> (r: bool)
        requires
            self.checked_ms <= now_ms,
        ensures
            r == has_passed(now_ms, self.checked_ms, CHECK_EVERY_MS as int),
    {
        now_ms - self.checked_ms >= CHECK_EVERY_MS
    }

    /// Decides whether to try a checkpoint: the log is ready for one and long enough, and the last
    /// attempt is a while ago. An attempt counts from its beginning, however it ends.
    pub fn attempt(&mut self, log_ready: bool, log_due: bool, now_ms: u64) -> (r: bool)
        requires
            old(self).attempted_ms matches Some(t) ==> t <= now_ms,
        ensures
            r == (log_ready && log_due && may_attempt(old(self).attempted_ms, now_ms)),
            *final(self) == (Upkeep {
                attempted_ms: if r {
                    Some(now_ms)
                } else {
                    old(self).attempted_ms
                },
                ..*old(self)
            }),
    {
        let rested: bool = match self.attempted_ms {
            Some(t) => now_ms - t >= RETRY_AFTER_MS,
            None => true,
        };
        if log_ready && log_due && rested {
            self.attempted_ms = Some(now_ms);
            true
        } else {
            false
        }
    }

    /// It was asked whether a checkpoint is due.
    pub fn checked(&mut self, now_ms: u64)
        ensures
            *final(self) == (Upkeep { checked_ms: now_ms, ..*old(self) }),
    {
        self.checked_ms = now_ms;
    }
}

/// `last[i]` is the time of the last attempt at a checkpoint before the question asked at
/// `asked[i]`, and `tried[i]` says how that question was answered.
pub open spec fn attempts_follow(asked: Seq<u64>, tried: Seq<bool>, last: Seq<Option<u64>>) -> bool {
    &&& tried.len() == asked.len() && last.len() == asked.len() + 1
    &&& forall|i: int, j: int| 0 <= i < j < asked.len() ==> asked[i] <= asked[j]
    &&& forall|i: int|
        #![trigger tried[i]]
        0 <= i < asked.len() ==> (tried[i] ==> may_attempt(last[i], asked[i])) && last[i + 1] == if tried[i] {
            Some(asked[i])
        } else {
            last[i]
        }
}

/// However often it is asked, no two attempts at a checkpoint begin within a minute.
pub proof fn attempts_are_spaced(asked: Seq<u64>, tried: Seq<bool>, last: Seq<Option<u64>>, i: int, j: int)
    requires
        attempts_follow(asked, tried, last),
        0 <= i < j < asked.len(),
        tried[i],
        tried[j],
    ensures
        asked[j] - asked[i] >= RETRY_AFTER_MS,
{
    last_attempt_is_late(asked, tried, last, i, j);
    assert(may_attempt(last[j], asked[j]));
}

proof fn last_attempt_is_late(asked: Seq<u64>, tried: Seq<bool>, last: Seq<Option<u64>>, i: int, j: int)
    requires
        attempts_follow(asked, tried, last),
        0 <= i < j < asked.len(),
        tried[i],
    ensures
        last[j] matches Some(t) && t >= asked[i],
    decreases j - i,
{
    if j == i + 1 {
        assert(tried[i]);
    } else {
        last_attempt_is_late(asked, tried, last, i, j - 1);
        let again = tried[j - 1];
        assert(last[j - 1 + 1] == if again {
            Some(asked[j - 1])
        } else {
            last[j - 1]
        });
        assert(asked[i] <= asked[j - 1]);
    }
}

/// The deferred work goes from phase to phase as each completes. A needed phase that does not
/// complete ends the worker; an index whose cache is of no use is built, and maintenance begins
/// whether that works out or not. To stop always ends it.
pub proof fn phases_lead_on(p: Phase, end: PhaseEnd, next: After)
    requires
        call_ensures(after_phase, (p, end), next),
    ensures
        end == PhaseEnd::Stopped ==> next == After::Quit,
        end == PhaseEnd::Complete ==> next == match p {
            Phase::Triplets => After::Run(Phase::TripletReplication),
            Phase::TripletReplication => After::Run(Phase::Symbols),
            Phase::Symbols => After::Run(Phase::SpanStore),
            Phase::SpanStore => After::Run(Phase::Hdc),
            Phase::Hdc => After::Run(Phase::EventTapeOrgans),
            Phase::EventTapeOrgans => After::Run(Phase::EpisodeHdc),
            Phase::EpisodeHdc => After::Run(Phase::KeywordReverse),
            Phase::KeywordReverse => After::Run(Phase::TurboCache),
            Phase::TurboCache => After::Maintain,
            Phase::TurboBuild => After::Maintain,
        },
        end == PhaseEnd::Failed || end == PhaseEnd::Missed ==> next == match p {
            Phase::TurboCache => After::Run(Phase::TurboBuild),
            Phase::TurboBuild => After::Maintain,
            _ => After::Quit,
        },
{
}

/// Access times are flushed once the seconds that are set have passed, and it is asked every
/// second whether a checkpoint is due.
pub proof fn upkeep_keeps_time(u: Upkeep, settings: Settings, now_ms: u64, flush: bool, ask: bool)
    requires
        u.touched_ms <= now_ms,
        u.checked_ms <= now_ms,
        call_ensures(Upkeep::touches_due, (&u, &settings, now_ms), flush),
        call_ensures(Upkeep::check_due, (&u, now_ms), ask),
    ensures
        flush <==> u.touched_ms + settings.touch_s * 1_000 <= now_ms,
        ask <==> u.checked_ms + 1_000 <= now_ms,
{
}

/// The first checkpoint may be tried at once, and each further one a minute after the last.
pub proof fn checkpoints_wait_a_minute(last_ms: Option<u64>, now_ms: u64)
    ensures
        last_ms is None ==> may_attempt(last_ms, now_ms),
        last_ms is Some ==> (may_attempt(last_ms, now_ms) <==> last_ms->0 + 60_000 <= now_ms),
{
}

/// What is set is used, except that access times are not flushed more often than every second and
/// that a checkpoint needs a positive number; what is not set, or is no number, has its usual
/// value.
pub proof fn settings_are_used(
    touch: Option<&str>,
    rebuild: Option<&str>,
    mb: Option<&str>,
    records: Option<&str>,
    r: Settings,
)
    requires
        call_ensures(read_settings, (touch, rebuild, mb, records), r),
    ensures
        touch is None ==> r.touch_s == 5,
        rebuild is None ==> r.min_mutations == 64,
        mb is None ==> r.checkpoint_bytes == 16 * 1_048_576,
        records is None ==> r.checkpoint_records == 20_000,
        r.touch_s >= 1,
        r.checkpoint_bytes >= 1_048_576,
        r.checkpoint_records >= 1,
        touch matches Some(s) ==> (decimal_u64(s@) matches Some(n) ==> (n >= 1 ==> r.touch_s == n)),
        rebuild matches Some(s) ==> (decimal_u64(s@) matches Some(n) ==> r.min_mutations == n),
        mb matches Some(s) ==> (decimal_u64(s@) matches Some(n) ==> (1 <= n <= 1_000_000
            ==> r.checkpoint_bytes == n * 1_048_576)),
        records matches Some(s) ==> (decimal_u64(s@) matches Some(n) ==> (n >= 1
            ==> r.checkpoint_records == n)),
{
}

} // verus!
