//! Live counters of the engine and the rates of its reads and writes.
//!
//! Time enters as a reading of a monotonic clock in nanoseconds, counted from an origin that the
//! caller chooses once.

use std::collections::VecDeque;
use vstd::prelude::*;
use vstd::string::StringExecFns;

use crate::decimal::{append_decimal, ascii_text, decimal};

verus! {

/// Nanoseconds in a second.
pub const NANOS_PER_SEC: u128 = 1_000_000_000;

/// Events and the span over which they are counted, both in nanoseconds.
#[verifier::ext_equal]
pub struct WindowView {
    pub times: Seq<u128>,
    pub span: nat,
}

/// `times` without the leading events that lie more than `span` before `now`.
pub open spec fn evicted(times: Seq<u128>, span: nat, now: u128) -> Seq<u128>
    decreases times.len(),
{
    if times.len() > 0 && now - times[0] > span {
        evicted(times.drop_first(), span, now)
    } else {
        times
    }
}

impl WindowView {
    /// An empty window of `secs` seconds.
    pub open spec fn empty(secs: nat) -> WindowView {
        WindowView { times: Seq::empty(), span: secs * NANOS_PER_SEC as nat }
    }

    /// The window without its stale events.
    pub open spec fn trimmed(self, now: u128) -> WindowView {
        WindowView { times: evicted(self.times, self.span, now), span: self.span }
    }

    /// The window after an event at `now`.
    pub open spec fn recorded(self, now: u128) -> WindowView {
        WindowView { times: self.times.push(now), span: self.span }.trimmed(now)
    }
}

/// An event lies at most `span` before `now`.
pub open spec fn recent(now: u128, span: nat) -> spec_fn(u128) -> bool {
    |t: u128| now - t <= span
}

/// In a window whose events stand in the order of time, exactly the events of the last span remain.
pub proof fn trimmed_window_holds_the_last_span(w: WindowView, now: u128)
    requires
        forall|i: int, j: int| 0 <= i <= j < w.times.len() ==> w.times[i] <= w.times[j],
    ensures
        w.trimmed(now).times == w.times.filter(recent(now, w.span)),
    decreases w.times.len(),
{
    let keep = recent(now, w.span);
    if w.times.len() > 0 && now - w.times[0] > w.span {
        let rest = WindowView { times: w.times.drop_first(), span: w.span };
        trimmed_window_holds_the_last_span(rest, now);
        assert(w.times =~= seq![w.times[0]] + rest.times);
        Seq::filter_distributes_over_add(seq![w.times[0]], rest.times, keep);
        reveal_with_fuel(Seq::filter, 2);
        assert(seq![w.times[0]].drop_last() =~= Seq::empty());
        assert(seq![w.times[0]].filter(keep) =~= Seq::empty());
        assert(w.times.filter(keep) =~= rest.times.filter(keep));
    } else {
        lemma_filter_keeps_all(w.times, keep);
    }
}

/// A use of a window: an event, or a question for the rate.
pub enum Tick {
    Event(u128),
    Rate(u128),
}

/// The moment of a use.
pub open spec fn moment(tick: Tick) -> u128 {
    match tick {
        Tick::Event(now) => now,
        Tick::Rate(now) => now,
    }
}

/// The clock does not run backwards.
pub open spec fn in_order(ticks: Seq<Tick>) -> bool {
    forall|i: int, j: int|
        0 <= i <= j < ticks.len() ==> moment(#[trigger] ticks[i]) <= moment(#[trigger] ticks[j])
}

/// A window of `secs` seconds after the uses `ticks`.
pub open spec fn window_after(secs: nat, ticks: Seq<Tick>) -> WindowView
    decreases ticks.len(),
{
    if ticks.len() == 0 {
        WindowView::empty(secs)
    } else {
        let before = window_after(secs, ticks.drop_last());
        match ticks.last() {
            Tick::Event(now) => before.recorded(now),
            Tick::Rate(now) => before.trimmed(now),
        }
    }
}

/// All events among the uses.
pub open spec fn events(ticks: Seq<Tick>) -> Seq<u128>
    decreases ticks.len(),
{
    if ticks.len() == 0 {
        Seq::empty()
    } else {
        match ticks.last() {
            Tick::Event(now) => events(ticks.drop_last()).push(now),
            Tick::Rate(_) => events(ticks.drop_last()),
        }
    }
}

/// What remains of a window is its end.
proof fn lemma_evicted_is_a_suffix(times: Seq<u128>, span: nat, now: u128) -> (n: int)
    ensures
        0 <= n <= times.len(),
        evicted(times, span, now) == times.skip(n),
    decreases times.len(),
{
    if times.len() > 0 && now - times[0] > span {
        let n = lemma_evicted_is_a_suffix(times.drop_first(), span, now);
        assert(times.drop_first().skip(n) =~= times.skip(n + 1));
        n + 1
    } else {
        assert(times.skip(0) =~= times);
        0
    }
}

/// What a stricter filter keeps does not depend on a laxer one before it.
proof fn lemma_filter_twice(s: Seq<u128>, lax: spec_fn(u128) -> bool, strict: spec_fn(u128) -> bool)
    requires
        forall|t: u128| #[trigger] strict(t) ==> lax(t),
    ensures
        s.filter(lax).filter(strict) == s.filter(strict),
    decreases s.len(),
{
    reveal(Seq::filter);
    if s.len() > 0 {
        let front = s.drop_last();
        lemma_filter_twice(front, lax, strict);
        if lax(s.last()) {
            let kept = front.filter(lax).push(s.last());
            assert(kept.drop_last() =~= front.filter(lax));
            assert(kept.last() == s.last());
        }
    }
}

/// A window that has been used in the order of time holds, in order, the events of the span before
/// its last use.
proof fn lemma_window_after(secs: nat, ticks: Seq<Tick>)
    requires
        in_order(ticks),
    ensures
        ({
            let w = window_after(secs, ticks);
            &&& w.span == secs * NANOS_PER_SEC as nat
            &&& forall|i: int, j: int| 0 <= i <= j < w.times.len() ==> w.times[i] <= w.times[j]
            &&& forall|i: int|
                0 <= i < w.times.len() ==> ticks.len() > 0 && (#[trigger] w.times[i]) <= moment(
                    ticks.last(),
                )
            &&& ticks.len() > 0 ==> w.times == events(ticks).filter(
                recent(moment(ticks.last()), w.span),
            )
        }),
    decreases ticks.len(),
{
    if ticks.len() > 0 {
        let front = ticks.drop_last();
        let now = moment(ticks.last());
        assert forall|i: int, j: int| 0 <= i <= j < front.len() implies moment(#[trigger] front[i])
            <= moment(#[trigger] front[j]) by {
            assert(front[i] == ticks[i] && front[j] == ticks[j]);
        }
        lemma_window_after(secs, front);
        let before = window_after(secs, front);
        let keep = recent(now, before.span);
        if front.len() > 0 {
            assert(front.last() == ticks[ticks.len() - 2]);
            assert(moment(ticks[ticks.len() - 2]) <= moment(ticks[ticks.len() - 1]));
        }
        assert(before.times.filter(keep) == events(front).filter(keep)) by {
            if front.len() > 0 {
                let lax = recent(moment(front.last()), before.span);
                assert forall|t: u128| #[trigger] keep(t) implies lax(t) by {}
                lemma_filter_twice(events(front), lax, keep);
            } else {
                assert(before.times =~= events(front));
            }
        }
        match ticks.last() {
            Tick::Event(_) => {
                let grown = WindowView { times: before.times.push(now), span: before.span };
                trimmed_window_holds_the_last_span(grown, now);
                let n = lemma_evicted_is_a_suffix(grown.times, grown.span, now);
                assert(grown.times.filter(keep) == events(ticks).filter(keep)) by {
                    reveal(Seq::filter);
                    assert(grown.times.drop_last() =~= before.times);
                    assert(events(ticks).drop_last() =~= events(front));
                }
            },
            Tick::Rate(_) => {
                trimmed_window_holds_the_last_span(before, now);
                let n = lemma_evicted_is_a_suffix(before.times, before.span, now);
            },
        }
    }
}

/// A rate counts just the events of the last span, however the window was used before: whichever
/// events and rates came, in the order of time, the window that is trimmed at `now` holds all events
/// that lie at most its span back, and no others.
pub proof fn a_rate_counts_the_events_of_the_last_span(secs: nat, ticks: Seq<Tick>, now: u128)
    requires
        in_order(ticks),
        ticks.len() > 0 ==> moment(ticks.last()) <= now,
    ensures
        window_after(secs, ticks).trimmed(now).times == events(ticks).filter(
            recent(now, secs * NANOS_PER_SEC as nat),
        ),
{
    let all = ticks.push(Tick::Rate(now));
    assert(all.drop_last() =~= ticks);
    assert forall|i: int, j: int| 0 <= i <= j < all.len() implies moment(#[trigger] all[i])
        <= moment(#[trigger] all[j]) by {
        if j < ticks.len() {
            assert(all[i] == ticks[i] && all[j] == ticks[j]);
        } else if i < ticks.len() {
            assert(all[i] == ticks[i]);
            assert(moment(ticks[i]) <= moment(ticks[ticks.len() - 1]));
        }
    }
    lemma_window_after(secs, all);
}

proof fn lemma_filter_keeps_all(s: Seq<u128>, keep: spec_fn(u128) -> bool)
    requires
        forall|i: int| 0 <= i < s.len() ==> keep(#[trigger] s[i]),
    ensures
        s.filter(keep) == s,
    decreases s.len(),
{
    reveal(Seq::filter);
    if s.len() > 0 {
        lemma_filter_keeps_all(s.drop_last(), keep);
        assert(s.drop_last().push(s.last()) =~= s);
    }
}

/// The times of recent events.
struct RateWindow {
    timestamps: VecDeque<u128>,
    window: u128,
}

impl View for RateWindow {
    type V = WindowView;

    closed spec fn view(&self) -> WindowView {
        WindowView { times: self.timestamps@, span: self.window as nat }
    }
}

impl RateWindow {
    fn new(window_secs: u64) -> (r: Self)
        ensures
            r@ == WindowView::empty(window_secs as nat),
    {
        RateWindow { timestamps: VecDeque::new(), window: window_secs as u128 * NANOS_PER_SEC }
    }

    /// Drops the leading events that are older than the window.
    fn evict(&mut self, now: u128)
        ensures
            final(self)@ == old(self)@.trimmed(now),
    {
        while self.timestamps.len() > 0 && now.saturating_sub(self.timestamps[0]) > self.window
            invariant
                self.window == old(self).window,
                self@.trimmed(now) == old(self)@.trimmed(now),
            decreases self.timestamps@.len(),
        {
            let ghost before = self.timestamps@;
            let _ = self.timestamps.pop_front();
            assert(self.timestamps@ =~= before.drop_first());
        }
    }

    /// Notes an event at `now`.
    fn record(&mut self, now: u128)
        ensures
            final(self)@ == old(self)@.recorded(now),
    {
        self.timestamps.push_back(now);
        self.evict(now);
    }

    /// The number of events in the window that ends at `now`.
    fn rate(&mut self, now: u128) -> (r: usize)
        ensures
            final(self)@ == old(self)@.trimmed(now),
            r == final(self)@.times.len(),
    {
        self.evict(now);
        self.timestamps.len()
    }
}

/// Live counters. The two rate windows span one second.
pub struct EngineMetrics {
    write_window: RateWindow,
    read_window: RateWindow,
    pub compaction_count: u64,
    pub wal_size_bytes: u64,
    pub sstable_count: u64,
    pub recovery_time_ms: u64,
    /// Writes since the start.
    pub total_writes: u64,
    /// Reads since the start.
    pub total_reads: u64,
}

/// What the counters hold.
#[verifier::ext_equal]
pub struct MetricsView {
    pub writes: WindowView,
    pub reads: WindowView,
    pub compaction_count: u64,
    pub wal_size_bytes: u64,
    pub sstable_count: u64,
    pub recovery_time_ms: u64,
    pub total_writes: u64,
    pub total_reads: u64,
}

impl MetricsView {
    /// New counters.
    pub open spec fn fresh() -> MetricsView {
        MetricsView {
            writes: WindowView::empty(1),
            reads: WindowView::empty(1),
            compaction_count: 0,
            wal_size_bytes: 0,
            sstable_count: 0,
            recovery_time_ms: 0,
            total_writes: 0,
            total_reads: 0,
        }
    }

    /// The counters after a write at `now`.
    pub open spec fn wrote(self, now: u128) -> MetricsView {
        MetricsView {
            writes: self.writes.recorded(now),
            total_writes: (self.total_writes + 1) as u64,
            ..self
        }
    }

    /// The counters after `n` writes at `now`.
    pub open spec fn wrote_times(self, now: u128, n: nat) -> MetricsView
        decreases n,
    {
        if n == 0 {
            self
        } else {
            self.wrote_times(now, (n - 1) as nat).wrote(now)
        }
    }

    /// The counters after a read at `now`.
    pub open spec fn read(self, now: u128) -> MetricsView {
        MetricsView {
            reads: self.reads.recorded(now),
            total_reads: (self.total_reads + 1) as u64,
            ..self
        }
    }

    /// The counters with both windows trimmed at `now`.
    pub open spec fn trimmed(self, now: u128) -> MetricsView {
        MetricsView { writes: self.writes.trimmed(now), reads: self.reads.trimmed(now), ..self }
    }
}

impl View for EngineMetrics {
    type V = MetricsView;

    closed spec fn view(&self) -> MetricsView {
        MetricsView {
            writes: self.write_window@,
            reads: self.read_window@,
            compaction_count: self.compaction_count,
            wal_size_bytes: self.wal_size_bytes,
            sstable_count: self.sstable_count,
            recovery_time_ms: self.recovery_time_ms,
            total_writes: self.total_writes,
            total_reads: self.total_reads,
        }
    }
}

impl EngineMetrics {
    pub fn new() -> (r: Self)
        ensures
            r@ == (MetricsView {
                writes: WindowView::empty(1),
                reads: WindowView::empty(1),
                compaction_count: 0,
                wal_size_bytes: 0,
                sstable_count: 0,
                recovery_time_ms: 0,
                total_writes: 0,
                total_reads: 0,
            }),
            r@ == MetricsView::fresh(),
    {
        EngineMetrics {
            write_window: RateWindow::new(1),
            read_window: RateWindow::new(1),
            compaction_count: 0,
            wal_size_bytes: 0,
            sstable_count: 0,
            recovery_time_ms: 0,
            total_writes: 0,
            total_reads: 0,
        }
    }

    /// Notes a write at `now`.
    pub fn record_write(&mut self, now: u128)
        requires
            old(self)@.total_writes < u64::MAX,
        ensures
            final(self)@ == old(self)@.wrote(now),
    {
        self.write_window.record(now);
        self.total_writes = self.total_writes + 1;
    }

    /// Notes a read at `now`.
    pub fn record_read(&mut self, now: u128)
        requires
            old(self)@.total_reads < u64::MAX,
        ensures
            final(self)@ == old(self)@.read(now),
    {
        self.read_window.record(now);
        self.total_reads = self.total_reads + 1;
    }

    /// Sets the length of the log.
    pub fn set_wal_size(&mut self, size: u64)
        ensures
            final(self)@ == (MetricsView { wal_size_bytes: size, ..old(self)@ }),
    {
        self.wal_size_bytes = size;
    }

    /// Sets the number of tables.
    pub fn set_sstable_count(&mut self, count: u64)
        ensures
            final(self)@ == (MetricsView { sstable_count: count, ..old(self)@ }),
    {
        self.sstable_count = count;
    }

    /// Sets how long recovery took.
    pub fn set_recovery_time(&mut self, millis: u64)
        ensures
            final(self)@ == (MetricsView { recovery_time_ms: millis, ..old(self)@ }),
    {
        self.recovery_time_ms = millis;
    }

    /// Counts a compaction.
    pub fn record_compaction(&mut self)
        requires
            old(self)@.compaction_count < u64::MAX,
        ensures
            final(self)@ == (MetricsView {
                compaction_count: (old(self)@.compaction_count + 1) as u64,
                ..old(self)@
            }),
    {
        self.compaction_count = self.compaction_count + 1;
    }

    /// Writes in the second that ends at `now`.
    pub fn writes_per_sec(&mut self, now: u128) -> (r: u64)
        ensures
            final(self)@ == (MetricsView { writes: old(self)@.writes.trimmed(now), ..old(self)@ }),
            r == final(self)@.writes.times.len(),
    {
        self.write_window.rate(now) as u64
    }

    /// Reads in the second that ends at `now`.
    pub fn reads_per_sec(&mut self, now: u128) -> (r: u64)
        ensures
            final(self)@ == (MetricsView { reads: old(self)@.reads.trimmed(now), ..old(self)@ }),
            r == final(self)@.reads.times.len(),
    {
        self.read_window.rate(now) as u64
    }

    /// The counters at `now`.
    pub fn snapshot(&mut self, now: u128) -> (r: MetricsSnapshot)
        ensures
            final(self)@ == old(self)@.trimmed(now),
            r.shows(final(self)@),
    {
        MetricsSnapshot {
            writes_per_sec: self.writes_per_sec(now),
            reads_per_sec: self.reads_per_sec(now),
            compaction_count: self.compaction_count,
            wal_size_bytes: self.wal_size_bytes,
            sstable_count: self.sstable_count,
            recovery_time_ms: self.recovery_time_ms,
            total_writes: self.total_writes,
            total_reads: self.total_reads,
        }
    }
}

/// The counters at one moment. A rate window spans one second, so a rate is a whole number.
#[derive(Debug, Clone, Copy)]
pub struct MetricsSnapshot {
    pub writes_per_sec: u64,
    pub reads_per_sec: u64,
    pub compaction_count: u64,
    pub wal_size_bytes: u64,
    pub sstable_count: u64,
    pub recovery_time_ms: u64,
    pub total_writes: u64,
    pub total_reads: u64,
}

/// The numeral of `n` as text.
pub open spec fn number(n: u64) -> Seq<char> {
    ascii_text(decimal(n as nat))
}

impl MetricsSnapshot {
    /// The snapshot shows the counters `m`.
    pub open spec fn shows(self, m: MetricsView) -> bool {
        &&& self.writes_per_sec == m.writes.times.len()
        &&& self.reads_per_sec == m.reads.times.len()
        &&& self.compaction_count == m.compaction_count
        &&& self.wal_size_bytes == m.wal_size_bytes
        &&& self.sstable_count == m.sstable_count
        &&& self.recovery_time_ms == m.recovery_time_ms
        &&& self.total_writes == m.total_writes
        &&& self.total_reads == m.total_reads
    }

    /// The snapshot as a JSON object. Rates show two decimals.
    pub open spec fn json(self) -> Seq<char> {
        "{\"writes_per_sec\":"@ + number(self.writes_per_sec)
            + ".00,\"reads_per_sec\":"@ + number(self.reads_per_sec)
            + ".00,\"compaction_count\":"@ + number(self.compaction_count)
            + ",\"wal_size_bytes\":"@ + number(self.wal_size_bytes)
            + ",\"sstable_count\":"@ + number(self.sstable_count)
            + ",\"recovery_time_ms\":"@ + number(self.recovery_time_ms)
            + ",\"total_writes\":"@ + number(self.total_writes)
            + ",\"total_reads\":"@ + number(self.total_reads)
            + "}"@
    }

    /// Renders the snapshot as JSON.
    pub fn to_json(&self) -> (r: String)
        ensures
            r@ == self.json(),
    {
        let mut out = String::from_str("{\"writes_per_sec\":");
        append_decimal(&mut out, self.writes_per_sec);
        out.append(".00,\"reads_per_sec\":");
        append_decimal(&mut out, self.reads_per_sec);
        out.append(".00,\"compaction_count\":");
        append_decimal(&mut out, self.compaction_count);
        out.append(",\"wal_size_bytes\":");
        append_decimal(&mut out, self.wal_size_bytes);
        out.append(",\"sstable_count\":");
        append_decimal(&mut out, self.sstable_count);
        out.append(",\"recovery_time_ms\":");
        append_decimal(&mut out, self.recovery_time_ms);
        out.append(",\"total_writes\":");
        append_decimal(&mut out, self.total_writes);
        out.append(",\"total_reads\":");
        append_decimal(&mut out, self.total_reads);
        out.append("}");
        out
    }
}

// ---------------------------------------------------------------------------
// Laws of the counters
// ---------------------------------------------------------------------------

/// What happens to the counters: a write, a read, or a question for them.
pub enum Use {
    Write(u128),
    Read(u128),
    Look(u128),
}

/// The moment of a use of the counters.
pub open spec fn when(u: Use) -> u128 {
    match u {
        Use::Write(now) => now,
        Use::Read(now) => now,
        Use::Look(now) => now,
    }
}

/// The counters `m` after the uses `us`.
pub open spec fn used(m: MetricsView, us: Seq<Use>) -> MetricsView
    decreases us.len(),
{
    if us.len() == 0 {
        m
    } else {
        let before = used(m, us.drop_last());
        match us.last() {
            Use::Write(now) => before.wrote(now),
            Use::Read(now) => before.read(now),
            Use::Look(now) => before.trimmed(now),
        }
    }
}

/// The moments of the writes among the uses.
pub open spec fn write_times(us: Seq<Use>) -> Seq<u128>
    decreases us.len(),
{
    if us.len() == 0 {
        Seq::empty()
    } else {
        match us.last() {
            Use::Write(now) => write_times(us.drop_last()).push(now),
            _ => write_times(us.drop_last()),
        }
    }
}

/// The moments of the reads among the uses.
pub open spec fn read_times(us: Seq<Use>) -> Seq<u128>
    decreases us.len(),
{
    if us.len() == 0 {
        Seq::empty()
    } else {
        match us.last() {
            Use::Read(now) => read_times(us.drop_last()).push(now),
            _ => read_times(us.drop_last()),
        }
    }
}

/// What the uses are to the window of the writes, and to that of the reads.
spec fn write_ticks(us: Seq<Use>) -> Seq<Tick>
    decreases us.len(),
{
    if us.len() == 0 {
        Seq::empty()
    } else {
        match us.last() {
            Use::Write(now) => write_ticks(us.drop_last()).push(Tick::Event(now)),
            Use::Read(_) => write_ticks(us.drop_last()),
            Use::Look(now) => write_ticks(us.drop_last()).push(Tick::Rate(now)),
        }
    }
}

spec fn read_ticks(us: Seq<Use>) -> Seq<Tick>
    decreases us.len(),
{
    if us.len() == 0 {
        Seq::empty()
    } else {
        match us.last() {
            Use::Read(now) => read_ticks(us.drop_last()).push(Tick::Event(now)),
            Use::Write(_) => read_ticks(us.drop_last()),
            Use::Look(now) => read_ticks(us.drop_last()).push(Tick::Rate(now)),
        }
    }
}

/// Ticks in order, none after `now`, and one more at a moment that is not before `now`.
proof fn lemma_ticks_grow(ticks: Seq<Tick>, now: u128, tick: Tick)
    requires
        in_order(ticks),
        ticks.len() > 0 ==> moment(ticks.last()) <= now,
        now <= moment(tick),
    ensures
        in_order(ticks.push(tick)),
{
    let all = ticks.push(tick);
    assert forall|i: int, j: int| 0 <= i <= j < all.len() implies moment(#[trigger] all[i])
        <= moment(#[trigger] all[j]) by {
        if j < ticks.len() {
            assert(all[i] == ticks[i] && all[j] == ticks[j]);
        } else if i < ticks.len() {
            assert(all[i] == ticks[i]);
            assert(moment(ticks[i]) <= moment(ticks[ticks.len() - 1]));
        }
    }
}

proof fn lemma_used(m: MetricsView, us: Seq<Use>, now: u128)
    requires
        m.writes == WindowView::empty(1),
        m.reads == WindowView::empty(1),
        m.total_writes == 0,
        m.total_reads == 0,
        us.len() <= u64::MAX,
        forall|i: int, j: int|
            0 <= i <= j < us.len() ==> when(#[trigger] us[i]) <= when(#[trigger] us[j]),
        us.len() > 0 ==> when(us.last()) <= now,
    ensures
        used(m, us).writes == window_after(1, write_ticks(us)),
        used(m, us).reads == window_after(1, read_ticks(us)),
        events(write_ticks(us)) == write_times(us),
        events(read_ticks(us)) == read_times(us),
        in_order(write_ticks(us)),
        in_order(read_ticks(us)),
        write_ticks(us).len() > 0 ==> moment(write_ticks(us).last()) <= now,
        read_ticks(us).len() > 0 ==> moment(read_ticks(us).last()) <= now,
        used(m, us).total_writes == write_times(us).len(),
        used(m, us).total_reads == read_times(us).len(),
        write_times(us).len() + read_times(us).len() <= us.len(),
        used(m, us).compaction_count == m.compaction_count,
        used(m, us).wal_size_bytes == m.wal_size_bytes,
        used(m, us).sstable_count == m.sstable_count,
        used(m, us).recovery_time_ms == m.recovery_time_ms,
    decreases us.len(),
{
    if us.len() > 0 {
        let front = us.drop_last();
        let t = when(us.last());
        assert forall|i: int, j: int| 0 <= i <= j < front.len() implies when(#[trigger] front[i])
            <= when(#[trigger] front[j]) by {
            assert(front[i] == us[i] && front[j] == us[j]);
        }
        if front.len() > 0 {
            assert(front.last() == us[us.len() - 2]);
            assert(when(us[us.len() - 2]) <= when(us[us.len() - 1]));
        }
        lemma_used(m, front, t);
        let w = write_ticks(front);
        let r = read_ticks(front);
        match us.last() {
            Use::Write(at) => {
                lemma_ticks_grow(w, t, Tick::Event(at));
                assert(w.push(Tick::Event(at)).drop_last() =~= w);
            },
            Use::Read(at) => {
                lemma_ticks_grow(r, t, Tick::Event(at));
                assert(r.push(Tick::Event(at)).drop_last() =~= r);
            },
            Use::Look(at) => {
                lemma_ticks_grow(w, t, Tick::Rate(at));
                lemma_ticks_grow(r, t, Tick::Rate(at));
                assert(w.push(Tick::Rate(at)).drop_last() =~= w);
                assert(r.push(Tick::Rate(at)).drop_last() =~= r);
            },
        }
    }
}

/// Writes that are counted at once, as when a log is replayed, count as so many writes.
pub proof fn writes_are_counted_one_by_one(m: MetricsView, now: u128, n: nat)
    ensures
        m.wrote_times(now, n) == used(m, Seq::new(n, |i: int| Use::Write(now))),
    decreases n,
{
    let us = Seq::new(n, |i: int| Use::Write(now));
    if n > 0 {
        writes_are_counted_one_by_one(m, now, (n - 1) as nat);
        assert(us.drop_last() =~= Seq::new((n - 1) as nat, |i: int| Use::Write(now)));
    }
}

/// What a snapshot shows of counters that were new, after any uses in the order of time: the rates are
/// the numbers of writes and of reads in the second that ends at `now`, the totals those since the
/// start, and the other numbers are what was set.
pub proof fn a_snapshot_counts_writes_and_reads(
    m: MetricsView,
    us: Seq<Use>,
    now: u128,
    snapshot: MetricsSnapshot,
)
    requires
        m.writes == MetricsView::fresh().writes,
        m.reads == MetricsView::fresh().reads,
        m.total_writes == MetricsView::fresh().total_writes,
        m.total_reads == MetricsView::fresh().total_reads,
        us.len() <= u64::MAX,
        forall|i: int, j: int|
            0 <= i <= j < us.len() ==> when(#[trigger] us[i]) <= when(#[trigger] us[j]),
        us.len() > 0 ==> when(us.last()) <= now,
        snapshot.shows(used(m, us).trimmed(now)),
    ensures
        forall|t: u128| #[trigger]
            recent(now, 1_000_000_000)(t) <==> now - t <= 1_000_000_000,
        snapshot.writes_per_sec == write_times(us).filter(recent(now, 1_000_000_000)).len(),
        snapshot.reads_per_sec == read_times(us).filter(recent(now, 1_000_000_000)).len(),
        snapshot.total_writes == write_times(us).len(),
        snapshot.total_reads == read_times(us).len(),
        snapshot.compaction_count == m.compaction_count,
        snapshot.wal_size_bytes == m.wal_size_bytes,
        snapshot.sstable_count == m.sstable_count,
        snapshot.recovery_time_ms == m.recovery_time_ms,
{
    lemma_used(m, us, now);
    a_rate_counts_the_events_of_the_last_span(1, write_ticks(us), now);
    a_rate_counts_the_events_of_the_last_span(1, read_ticks(us), now);
}

} // verus!
