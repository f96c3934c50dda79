//! The request budget: how many requests are admitted at once, and how many in
//! each window of time.

use vstd::prelude::*;

verus! {

/// Max concurrent request handlers (disk/network budget).
pub const MAX_IN_FLIGHT_REQUESTS: u64 = 8;

/// Max requests accepted per fixed window.
pub const MAX_REQUESTS_PER_WINDOW: u64 = 60;

/// Length of a window in nanoseconds: ten seconds.
pub const REQUEST_WINDOW_NANOS: u128 = 10_000_000_000;

/// A bound on requests in flight and on requests per window.
#[derive(Debug)]
pub struct RequestBudget {
    in_flight: u64,
    window_start: u128,
    window_count: u64,
}

/// The contents of a [`RequestBudget`].
pub struct BudgetView {
    /// Requests admitted and not finished.
    pub in_flight: nat,
    /// When the current window began, in nanoseconds of a monotonic clock.
    pub window_start: u128,
    /// Requests admitted in the current window.
    pub window_count: nat,
}

impl View for RequestBudget {
    type V = BudgetView;

    closed spec fn view(&self) -> BudgetView {
        BudgetView {
            in_flight: self.in_flight as nat,
            window_start: self.window_start,
            window_count: self.window_count as nat,
        }
    }
}

/// One admitted request; handed back when the request is finished.
#[derive(Debug)]
pub struct RequestPermit {
    _sealed: (),
}

/// A budget that nothing was taken from.
pub open spec fn fresh(now: u128) -> BudgetView {
    BudgetView { in_flight: 0, window_start: now, window_count: 0 }
}

/// The budget with a new window, if the current one is over. A clock that went
/// back counts as one that stood still.
pub open spec fn windowed(b: BudgetView, now: u128) -> BudgetView {
    if now - b.window_start >= REQUEST_WINDOW_NANOS {
        BudgetView { window_start: now, window_count: 0, ..b }
    } else {
        b
    }
}

/// Is a request admitted at this time?
pub open spec fn admits(b: BudgetView, now: u128) -> bool {
    windowed(b, now).window_count < MAX_REQUESTS_PER_WINDOW && b.in_flight < MAX_IN_FLIGHT_REQUESTS
}

/// The budget after a request has asked for admission.
pub open spec fn after_request(b: BudgetView, now: u128) -> BudgetView {
    let w = windowed(b, now);
    if admits(b, now) {
        BudgetView { in_flight: w.in_flight + 1, window_count: w.window_count + 1, ..w }
    } else {
        w
    }
}

/// The budget after an admitted request has finished.
pub open spec fn after_release(b: BudgetView) -> BudgetView {
    BudgetView {
        in_flight: if b.in_flight == 0 {
            0
        } else {
            (b.in_flight - 1) as nat
        },
        ..b
    }
}

impl RequestBudget {
    /// A budget whose first window begins now.
    pub fn new(now: u128) -> (r: Self)
        ensures
            r@ == fresh(now),
    {
        RequestBudget { in_flight: 0, window_start: now, window_count: 0 }
    }

    /// Try to admit one request. The permit is handed back when it is finished.
    pub fn try_acquire(&mut self, now: u128) -> (r: Option<RequestPermit>)
        ensures
            r is Some <==> admits(old(self)@, now),
            final(self)@ == after_request(old(self)@, now),
    {
        if now >= self.window_start && now - self.window_start >= REQUEST_WINDOW_NANOS {
            self.window_start = now;
            self.window_count = 0;
        }
        if self.window_count >= MAX_REQUESTS_PER_WINDOW {
            return None;
        }
        if self.in_flight >= MAX_IN_FLIGHT_REQUESTS {
            return None;
        }
        self.window_count = self.window_count + 1;
        self.in_flight = self.in_flight + 1;
        Some(RequestPermit { _sealed: () })
    }

    /// An admitted request is finished.
    pub fn release(&mut self, permit: RequestPermit)
        ensures
            final(self)@ == after_release(old(self)@),
    {
        self.in_flight = self.in_flight.saturating_sub(1);
    }
}

/// What happens to a budget.
pub enum BudgetEvent {
    /// A request asks for admission.
    Request(u128),
    /// An admitted request has finished.
    Release,
}

/// The budget after the events.
pub open spec fn ran(b: BudgetView, events: Seq<BudgetEvent>) -> BudgetView
    decreases events.len(),
{
    if events.len() == 0 {
        b
    } else {
        let before = ran(b, events.drop_last());
        match events.last() {
            BudgetEvent::Request(now) => after_request(before, now),
            BudgetEvent::Release => after_release(before),
        }
    }
}

/// How many requests were admitted among the events.
pub open spec fn admitted(b: BudgetView, events: Seq<BudgetEvent>) -> nat
    decreases events.len(),
{
    if events.len() == 0 {
        0
    } else {
        let before = ran(b, events.drop_last());
        let count = admitted(b, events.drop_last());
        match events.last() {
            BudgetEvent::Request(now) => if admits(before, now) {
                count + 1
            } else {
                count
            },
            BudgetEvent::Release => count,
        }
    }
}

/// How many requests finished among the events.
pub open spec fn released(events: Seq<BudgetEvent>) -> nat
    decreases events.len(),
{
    if events.len() == 0 {
        0
    } else {
        released(events.drop_last()) + match events.last() {
            BudgetEvent::Request(_) => 0nat,
            BudgetEvent::Release => 1nat,
        }
    }
}

/// Does each release follow an admission of its own?
pub open spec fn is_paired(b: BudgetView, events: Seq<BudgetEvent>) -> bool
    decreases events.len(),
{
    events.len() == 0 || {
        &&& is_paired(b, events.drop_last())
        &&& released(events) <= b.in_flight + admitted(b, events)
    }
}

/// Whatever happens, no more requests are in flight, and no more were admitted
/// in the current window, than the bounds allow.
pub proof fn law_budget_bounds_hold(b: BudgetView, events: Seq<BudgetEvent>)
    requires
        b.in_flight <= MAX_IN_FLIGHT_REQUESTS,
        b.window_count <= MAX_REQUESTS_PER_WINDOW,
    ensures
        ran(b, events).in_flight <= MAX_IN_FLIGHT_REQUESTS,
        ran(b, events).window_count <= MAX_REQUESTS_PER_WINDOW,
    decreases events.len(),
{
    if events.len() > 0 {
        law_budget_bounds_hold(b, events.drop_last());
    }
}

/// The requests in flight are those admitted and not finished.
pub proof fn law_in_flight_counts_open_requests(b: BudgetView, events: Seq<BudgetEvent>)
    requires
        is_paired(b, events),
    ensures
        ran(b, events).in_flight == b.in_flight + admitted(b, events) - released(events),
    decreases events.len(),
{
    if events.len() > 0 {
        law_in_flight_counts_open_requests(b, events.drop_last());
    }
}

/// Within one window no more requests are admitted than the window allows,
/// whatever finishes meanwhile.
pub proof fn law_window_admits_no_more(b: BudgetView, events: Seq<BudgetEvent>)
    requires
        b.window_count <= MAX_REQUESTS_PER_WINDOW,
        forall|i: int|
            0 <= i < events.len() ==> match #[trigger] events[i] {
                BudgetEvent::Request(now) => now - b.window_start < REQUEST_WINDOW_NANOS,
                BudgetEvent::Release => true,
            },
    ensures
        ran(b, events).window_start == b.window_start,
        ran(b, events).window_count == b.window_count + admitted(b, events),
        b.window_count + admitted(b, events) <= MAX_REQUESTS_PER_WINDOW,
    decreases events.len(),
{
    if events.len() > 0 {
        let before = events.drop_last();
        assert forall|i: int| 0 <= i < before.len() implies match #[trigger] before[i] {
            BudgetEvent::Request(now) => now - b.window_start < REQUEST_WINDOW_NANOS,
            BudgetEvent::Release => true,
        } by {
            assert(before[i] == events[i]);
        }
        law_window_admits_no_more(b, before);
        assert(match events[events.len() - 1] {
            BudgetEvent::Request(now) => now - b.window_start < REQUEST_WINDOW_NANOS,
            BudgetEvent::Release => true,
        });
    }
}

/// A request is admitted again once one in flight has finished and the window
/// has room, or once the window is over and there is room in flight.
pub proof fn law_budget_recovers(b: BudgetView, now: u128)
    ensures
        0 < b.in_flight <= MAX_IN_FLIGHT_REQUESTS && b.window_count < MAX_REQUESTS_PER_WINDOW
            ==> admits(after_release(b), now),
        b.in_flight < MAX_IN_FLIGHT_REQUESTS && now - b.window_start >= REQUEST_WINDOW_NANOS
            ==> admits(b, now),
{
}

/// The limits: eight requests at once, sixty in a window of ten seconds. A request
/// comes in the current window for ten seconds from its beginning, or where the
/// clock went back; otherwise in a new one, which begins with it and is empty. It is
/// admitted exactly if there is room in flight and in its window; then it counts one
/// in both, else in neither.
pub proof fn law_requests_are_counted_in_their_window(b: BudgetView, now: u128)
    ensures
        ({
            let is_new = now >= b.window_start && now - b.window_start >= 10_000_000_000;
            let before: nat = if is_new {
                0
            } else {
                b.window_count
            };
            let after = after_request(b, now);
            &&& admits(b, now) <==> b.in_flight < 8 && before < 60
            &&& after.window_start == if is_new {
                now
            } else {
                b.window_start
            }
            &&& admits(b, now) ==> after.window_count == before + 1 && after.in_flight
                == b.in_flight + 1
            &&& !admits(b, now) ==> after.window_count == before && after.in_flight == b.in_flight
        }),
{
}

/// A request that has finished frees its place in flight and nothing else.
pub proof fn law_release_frees_one_place(b: BudgetView, now: u128)
    ensures
        after_release(b).window_start == b.window_start,
        after_release(b).window_count == b.window_count,
        b.in_flight > 0 ==> after_release(b).in_flight + 1 == b.in_flight,
        b.in_flight == 0 ==> after_release(b).in_flight == 0,
        admits(b, now) ==> after_release(after_request(b, now)).in_flight == b.in_flight,
{
}

/// Requests that come one after the other, each finished before the next.
pub open spec fn in_turn(times: Seq<u128>) -> Seq<BudgetEvent>
    decreases times.len(),
{
    if times.len() == 0 {
        Seq::empty()
    } else {
        in_turn(times.drop_last()).push(BudgetEvent::Request(times.last())).push(
            BudgetEvent::Release,
        )
    }
}

/// A new window has room for sixty requests: once the old one is over and there is
/// room in flight, a request begins a window, and it and all that follow in turn
/// within ten seconds are admitted, up to the sixtieth.
pub proof fn law_new_windows_have_room(b: BudgetView, times: Seq<u128>)
    requires
        b.in_flight < MAX_IN_FLIGHT_REQUESTS,
        0 < times.len() <= 60,
        times[0] - b.window_start >= REQUEST_WINDOW_NANOS,
        forall|i: int|
            0 <= i < times.len() ==> times[0] <= #[trigger] times[i] < times[0]
                + REQUEST_WINDOW_NANOS,
    ensures
        admitted(b, in_turn(times)) == times.len(),
        ran(b, in_turn(times)).window_start == times[0],
        ran(b, in_turn(times)).window_count == times.len(),
        ran(b, in_turn(times)).in_flight == b.in_flight,
    decreases times.len(),
{
    let before = times.drop_last();
    let now = times.last();
    let events = in_turn(before);
    let asked = events.push(BudgetEvent::Request(now));
    let all = asked.push(BudgetEvent::Release);
    assert(all.drop_last() =~= asked);
    assert(asked.drop_last() =~= events);
    assert(times[times.len() - 1] == now);
    if before.len() == 0 {
        assert(events =~= Seq::<BudgetEvent>::empty());
    } else {
        assert forall|i: int| 0 <= i < before.len() implies before[0] <= #[trigger] before[i]
            < before[0] + REQUEST_WINDOW_NANOS by {
            assert(before[i] == times[i]);
        }
        law_new_windows_have_room(b, before);
    }
    reveal_with_fuel(ran, 3);
    reveal_with_fuel(admitted, 3);
    assert(admits(ran(b, events), now));
}

/// A budget that nothing was taken from admits sixty requests in turn within ten
/// seconds of its beginning.
pub proof fn law_fresh_budgets_have_room(start: u128, times: Seq<u128>)
    requires
        times.len() <= 60,
        forall|i: int|
            0 <= i < times.len() ==> start <= #[trigger] times[i] < start + REQUEST_WINDOW_NANOS,
    ensures
        admitted(fresh(start), in_turn(times)) == times.len(),
        ran(fresh(start), in_turn(times)).window_start == start,
        ran(fresh(start), in_turn(times)).window_count == times.len(),
        ran(fresh(start), in_turn(times)).in_flight == 0,
    decreases times.len(),
{
    if times.len() > 0 {
        let before = times.drop_last();
        let now = times.last();
        let events = in_turn(before);
        let asked = events.push(BudgetEvent::Request(now));
        assert(asked.push(BudgetEvent::Release).drop_last() =~= asked);
        assert(asked.drop_last() =~= events);
        assert(times[times.len() - 1] == now);
        assert forall|i: int| 0 <= i < before.len() implies start <= #[trigger] before[i] < start
            + REQUEST_WINDOW_NANOS by {
            assert(before[i] == times[i]);
        }
        law_fresh_budgets_have_room(start, before);
        reveal_with_fuel(ran, 3);
        reveal_with_fuel(admitted, 3);
    }
}

} // verus!
