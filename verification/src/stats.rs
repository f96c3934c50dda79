//! Serve counters.

use vstd::prelude::*;

verus! {

/// Snapshot of serve counters.
#[derive(Debug, Clone, Copy, PartialEq, Eq)]
pub struct NomadServeStats {
    /// Total requests admitted (including not-found).
    pub request_count: u64,
    /// Successful page replies.
    pub page_hits: u64,
    /// Successful file replies.
    pub file_hits: u64,
    /// Missing routes / missing content.
    pub not_found_count: u64,
    /// Wall-clock ms of the last admitted request, if any.
    pub last_request_ms: Option<u64>,
}

/// Counters that nothing was counted on.
pub open spec fn zero() -> CountersView {
    CountersView {
        request_count: 0,
        page_hits: 0,
        file_hits: 0,
        not_found_count: 0,
        last_request_ms: 0,
    }
}

impl Default for NomadServeStats {
    fn default() -> (r: Self)
        ensures
            r == snapshot_of(zero()),
    {
        NomadServeStats {
            request_count: 0,
            page_hits: 0,
            file_hits: 0,
            not_found_count: 0,
            last_request_ms: None,
        }
    }
}

/// The running serve counters.
#[derive(Debug)]
pub struct NomadServeStatsInner {
    request_count: u64,
    page_hits: u64,
    file_hits: u64,
    not_found_count: u64,
    last_request_ms: u64,
}

/// The contents of [`NomadServeStatsInner`].
pub struct CountersView {
    pub request_count: u64,
    pub page_hits: u64,
    pub file_hits: u64,
    pub not_found_count: u64,
    /// Wall-clock ms of the last admitted request, 0 before the first.
    pub last_request_ms: u64,
}

impl View for NomadServeStatsInner {
    type V = CountersView;

    closed spec fn view(&self) -> CountersView {
        CountersView {
            request_count: self.request_count,
            page_hits: self.page_hits,
            file_hits: self.file_hits,
            not_found_count: self.not_found_count,
            last_request_ms: self.last_request_ms,
        }
    }
}

/// One more on a counter, which starts again at 0 once it is full.
pub open spec fn counted(n: u64) -> u64 {
    if n == u64::MAX {
        0
    } else {
        (n + 1) as u64
    }
}

/// The counters after a request was admitted.
pub open spec fn with_request(c: CountersView, now_ms: u64) -> CountersView {
    CountersView { request_count: counted(c.request_count), last_request_ms: now_ms, ..c }
}

/// The counters after a page was served.
pub open spec fn with_page(c: CountersView) -> CountersView {
    CountersView { page_hits: counted(c.page_hits), ..c }
}

/// The counters after a file was served.
pub open spec fn with_file(c: CountersView) -> CountersView {
    CountersView { file_hits: counted(c.file_hits), ..c }
}

/// The counters after something was not found.
pub open spec fn with_miss(c: CountersView) -> CountersView {
    CountersView { not_found_count: counted(c.not_found_count), ..c }
}

/// What a snapshot of the counters shows.
pub open spec fn snapshot_of(c: CountersView) -> NomadServeStats {
    NomadServeStats {
        request_count: c.request_count,
        page_hits: c.page_hits,
        file_hits: c.file_hits,
        not_found_count: c.not_found_count,
        last_request_ms: if c.last_request_ms == 0 {
            None
        } else {
            Some(c.last_request_ms)
        },
    }
}

impl NomadServeStatsInner {
    /// Counters that nothing was counted on.
    pub fn new() -> (r: Self)
        ensures
            r@ == zero(),
    {
        NomadServeStatsInner {
            request_count: 0,
            page_hits: 0,
            file_hits: 0,
            not_found_count: 0,
            last_request_ms: 0,
        }
    }

    /// A request was admitted.
    pub fn count_request(&mut self, now_ms: u64)
        ensures
            final(self)@ == with_request(old(self)@, now_ms),
    {
        self.request_count = self.request_count.wrapping_add(1);
        self.last_request_ms = now_ms;
    }

    /// A page was served.
    pub fn count_page(&mut self)
        ensures
            final(self)@ == with_page(old(self)@),
    {
        self.page_hits = self.page_hits.wrapping_add(1);
    }

    /// A file was served.
    pub fn count_file(&mut self)
        ensures
            final(self)@ == with_file(old(self)@),
    {
        self.file_hits = self.file_hits.wrapping_add(1);
    }

    /// Something was not found.
    pub fn count_miss(&mut self)
        ensures
            final(self)@ == with_miss(old(self)@),
    {
        self.not_found_count = self.not_found_count.wrapping_add(1);
    }

    /// What the counters show now.
    pub fn snapshot(&self) -> (r: NomadServeStats)
        ensures
            r == snapshot_of(self@),
    {
        let last: u64 = self.last_request_ms;
        NomadServeStats {
            request_count: self.request_count,
            page_hits: self.page_hits,
            file_hits: self.file_hits,
            not_found_count: self.not_found_count,
            last_request_ms: if last == 0 {
                None
            } else {
                Some(last)
            },
        }
    }
}

/// Each event is counted once, on its own counter, and on no other; the last
/// request's time is kept.
pub proof fn law_events_are_counted_once(c: CountersView, now_ms: u64)
    requires
        c.request_count < u64::MAX,
        c.page_hits < u64::MAX,
        c.file_hits < u64::MAX,
        c.not_found_count < u64::MAX,
    ensures
        ({
            let r = with_request(c, now_ms);
            &&& r.request_count == c.request_count + 1
            &&& r.last_request_ms == now_ms
            &&& r.page_hits == c.page_hits && r.file_hits == c.file_hits
            &&& r.not_found_count == c.not_found_count
        }),
        ({
            let r = with_page(c);
            &&& r.page_hits == c.page_hits + 1
            &&& r.request_count == c.request_count && r.file_hits == c.file_hits
            &&& r.not_found_count == c.not_found_count && r.last_request_ms == c.last_request_ms
        }),
        ({
            let r = with_file(c);
            &&& r.file_hits == c.file_hits + 1
            &&& r.request_count == c.request_count && r.page_hits == c.page_hits
            &&& r.not_found_count == c.not_found_count && r.last_request_ms == c.last_request_ms
        }),
        ({
            let r = with_miss(c);
            &&& r.not_found_count == c.not_found_count + 1
            &&& r.request_count == c.request_count && r.page_hits == c.page_hits
            &&& r.file_hits == c.file_hits && r.last_request_ms == c.last_request_ms
        }),
{
}

/// A snapshot shows every counter as it is, and the last request's time once there
/// was a request at a time other than 0; before that all are 0.
pub proof fn law_snapshots_show_the_counters(c: CountersView, now_ms: u64)
    ensures
        snapshot_of(c).request_count == c.request_count,
        snapshot_of(c).page_hits == c.page_hits,
        snapshot_of(c).file_hits == c.file_hits,
        snapshot_of(c).not_found_count == c.not_found_count,
        now_ms != 0 ==> snapshot_of(with_request(c, now_ms)).last_request_ms == Some(now_ms),
        snapshot_of(with_request(c, 0)).last_request_ms is None,
        zero().request_count == 0,
        zero().page_hits == 0,
        zero().file_hits == 0,
        zero().not_found_count == 0,
        snapshot_of(zero()).last_request_ms is None,
{
}

/// A counter that is full starts again at 0.
pub proof fn law_full_counters_start_again(c: CountersView, now_ms: u64)
    ensures
        c.request_count == u64::MAX ==> with_request(c, now_ms).request_count == 0,
        c.page_hits == u64::MAX ==> with_page(c).page_hits == 0,
        c.file_hits == u64::MAX ==> with_file(c).file_hits == 0,
        c.not_found_count == u64::MAX ==> with_miss(c).not_found_count == 0,
{
}

} // verus!
