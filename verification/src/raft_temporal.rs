use vstd::prelude::*;
use vstd::std_specs::convert::FromSpecImpl;

verus! {

/// Something that advances by one step of logical time.
pub trait Temporal {
    fn tick(&mut self);
}

/// A repeating alarm that counts ticks down to zero and then rearms.
///
/// The tick that brings `ticks_left` to zero is the one that fires. The tick
/// after it rearms the timer without firing, so two firings lie
/// `default_timeout + 1` ticks apart.
#[derive(Debug)]
pub struct RaftTimer {
    pub default_timeout: usize,
    pub ticks_left: usize,
}

impl RaftTimer {
    /// The counter never exceeds the timeout it is rearmed with.
    pub open spec fn wf(self) -> bool {
        self.ticks_left <= self.default_timeout
    }

    /// The timer one tick later.
    pub open spec fn ticked(self) -> RaftTimer {
        if self.ticks_left == 0 {
            RaftTimer { default_timeout: self.default_timeout, ticks_left: self.default_timeout }
        } else {
            RaftTimer {
                default_timeout: self.default_timeout,
                ticks_left: (self.ticks_left - 1) as usize,
            }
        }
    }

    /// The timer `n` ticks later.
    pub open spec fn after(self, n: nat) -> RaftTimer
        decreases n,
    {
        if n == 0 {
            self
        } else {
            self.after((n - 1) as nat).ticked()
        }
    }

    /// The timer as it is built: armed with its full timeout.
    pub open spec fn armed(timeout: usize) -> RaftTimer {
        RaftTimer { default_timeout: timeout, ticks_left: timeout }
    }

    /// Whether the tick that produced this state was a firing one.
    pub open spec fn fired(self) -> bool {
        self.ticks_left == 0
    }
}

impl Temporal for RaftTimer {
    fn tick(&mut self)
        ensures
            *final(self) == old(self).ticked(),
            old(self).wf() ==> final(self).wf(),
    {
        self.ticks_left = match self.ticks_left.checked_sub(1) {
            Some(left) => left,
            None => self.default_timeout,
        };
    }
}

impl From<usize> for RaftTimer {
    fn from(timeout: usize) -> (timer: Self)
        ensures
            timer.wf(),
    {
        RaftTimer { default_timeout: timeout, ticks_left: timeout }
    }
}

impl FromSpecImpl<usize> for RaftTimer {
    open spec fn obeys_from_spec() -> bool {
        true
    }

    open spec fn from_spec(timeout: usize) -> Self {
        RaftTimer::armed(timeout)
    }
}

/// While the timer is armed with `k` ticks left, `n <= k` ticks only count
/// down.
pub proof fn lemma_counts_down(timer: RaftTimer, n: nat)
    requires
        n <= timer.ticks_left,
    ensures
        timer.after(n).default_timeout == timer.default_timeout,
        timer.after(n).ticks_left == timer.ticks_left - n,
    decreases n,
{
    if n > 0 {
        lemma_counts_down(timer, (n - 1) as nat);
    }
}

/// A timer built with timeout `t` reads zero after exactly `t` ticks, and the
/// tick after that rearms it to `t`.
pub proof fn lemma_fires_then_rearms(timeout: usize)
    ensures
        RaftTimer::armed(timeout).after(timeout as nat).ticks_left == 0,
        RaftTimer::armed(timeout).after(timeout as nat + 1).ticks_left == timeout,
        forall|n: nat| n < timeout ==> !(#[trigger] RaftTimer::armed(timeout).after(n)).fired(),
{
    let timer = RaftTimer::armed(timeout);
    lemma_counts_down(timer, timeout as nat);
    assert(timer.after(timeout as nat + 1) == timer.after(timeout as nat).ticked());
    assert forall|n: nat| n < timeout implies !(#[trigger] timer.after(n)).fired() by {
        lemma_counts_down(timer, n);
    }
}

/// Ticking `a` times and then `b` times is ticking `a + b` times.
pub proof fn lemma_ticks_add(timer: RaftTimer, a: nat, b: nat)
    ensures
        timer.after(a + b) == timer.after(a).after(b),
    decreases b,
{
    if b > 0 {
        lemma_ticks_add(timer, a, (b - 1) as nat);
        assert(timer.after(a + b) == timer.after((a + b - 1) as nat).ticked());
    }
}

/// A timer is back where it was after one tick more than its timeout: that
/// many ticks lie between two firings.
pub proof fn lemma_period(timer: RaftTimer)
    requires
        timer.wf(),
    ensures
        timer.after(timer.default_timeout as nat + 1) == timer,
{
    let left = timer.ticks_left as nat;
    let rest = (timer.default_timeout - timer.ticks_left) as nat;
    lemma_counts_down(timer, left);
    let fired = timer.after(left);
    let rearmed = fired.ticked();
    assert(timer.after(left + 1) == rearmed);
    lemma_counts_down(rearmed, rest);
    lemma_ticks_add(timer, left + 1, rest);
}

} // verus!
