//! Health state machine with hysteresis: an app becomes healthy after a run of
//! successful probes and unhealthy after a run of failed ones.

use vstd::prelude::*;

verus! {

/// Observed health of a running app.
#[derive(Debug, Clone, Copy, PartialEq, Eq, Structural)]
pub enum HealthState {
    Unknown,
    Healthy,
    Unhealthy,
}

impl HealthState {
    /// Lower-case name of the state, as shown to clients.
    pub open spec fn label_spec(self) -> Seq<char> {
        match self {
            HealthState::Unknown => "unknown"@,
            HealthState::Healthy => "healthy"@,
            HealthState::Unhealthy => "unhealthy"@,
        }
    }

    pub fn label(self) -> (s: &'static str)
        ensures
            s@ == self.label_spec(),
    {
        match self {
            HealthState::Unknown => "unknown",
            HealthState::Healthy => "healthy",
            HealthState::Unhealthy => "unhealthy",
        }
    }
}

/// Counts consecutive probe results and switches state when a threshold is reached.
#[derive(Debug, Clone, Copy)]
pub struct HealthMachine {
    healthy_threshold: u32,
    unhealthy_threshold: u32,
    state: HealthState,
    success_streak: u32,
    failure_streak: u32,
}

/// `a + 1`, stopping at `u32::MAX`.
pub open spec fn saturating_inc(a: u32) -> u32 {
    if a == u32::MAX {
        a
    } else {
        (a + 1) as u32
    }
}

/// The number of results equal to `ok` at the end of `obs`.
pub open spec fn trailing(obs: Seq<bool>, ok: bool) -> nat
    decreases obs.len(),
{
    if obs.len() > 0 && obs.last() == ok {
        trailing(obs.drop_last(), ok) + 1
    } else {
        0
    }
}

/// `n`, stopping at `u32::MAX`.
pub open spec fn capped(n: nat) -> u32 {
    if n > u32::MAX {
        u32::MAX
    } else {
        n as u32
    }
}

impl HealthMachine {
    pub closed spec fn healthy_threshold(self) -> u32 {
        self.healthy_threshold
    }

    pub closed spec fn unhealthy_threshold(self) -> u32 {
        self.unhealthy_threshold
    }

    pub closed spec fn current(self) -> HealthState {
        self.state
    }

    pub closed spec fn success_streak(self) -> u32 {
        self.success_streak
    }

    pub closed spec fn failure_streak(self) -> u32 {
        self.failure_streak
    }

    /// Both thresholds are at least one.
    pub open spec fn wf(self) -> bool {
        self.healthy_threshold() >= 1 && self.unhealthy_threshold() >= 1
    }

    /// The machine after one probe result.
    pub closed spec fn step(self, ok: bool) -> HealthMachine {
        if ok {
            let s = saturating_inc(self.success_streak);
            HealthMachine {
                success_streak: s,
                failure_streak: 0,
                state: if s >= self.healthy_threshold {
                    HealthState::Healthy
                } else {
                    self.state
                },
                ..self
            }
        } else {
            let f = saturating_inc(self.failure_streak);
            HealthMachine {
                success_streak: 0,
                failure_streak: f,
                state: if f >= self.unhealthy_threshold {
                    HealthState::Unhealthy
                } else {
                    self.state
                },
                ..self
            }
        }
    }

    /// The machine after a sequence of probe results, oldest first.
    pub closed spec fn run(self, obs: Seq<bool>) -> HealthMachine
        decreases obs.len(),
    {
        if obs.len() == 0 {
            self
        } else {
            self.run(obs.drop_last()).step(obs.last())
        }
    }

    /// No observation leaves the machine as it is.
    pub proof fn lemma_run_empty(self)
        ensures
            self.run(Seq::empty()) == self,
    {
    }

    /// One more observation is one more step: the machine after `obs` and
    /// then `ok` is the machine after `obs`, stepped by `ok` (as `observe`
    /// does). With `new` and `reset`, which give `initial`, this ties the
    /// machine built by a sequence of calls to `run`.
    pub proof fn lemma_run_push(self, obs: Seq<bool>, ok: bool)
        ensures
            self.run(obs.push(ok)) == self.run(obs).step(ok),
    {
        assert(obs.push(ok).drop_last() =~= obs);
    }

    /// What one observation does, stated over the accessors.
    pub proof fn lemma_step(self, ok: bool)
        ensures
            self.step(ok).healthy_threshold() == self.healthy_threshold(),
            self.step(ok).unhealthy_threshold() == self.unhealthy_threshold(),
            ok ==> self.step(ok).success_streak() == saturating_inc(self.success_streak()),
            ok ==> self.step(ok).failure_streak() == 0,
            ok ==> self.step(ok).current() == (if saturating_inc(self.success_streak())
                >= self.healthy_threshold() {
                HealthState::Healthy
            } else {
                self.current()
            }),
            !ok ==> self.step(ok).failure_streak() == saturating_inc(self.failure_streak()),
            !ok ==> self.step(ok).success_streak() == 0,
            !ok ==> self.step(ok).current() == (if saturating_inc(self.failure_streak())
                >= self.unhealthy_threshold() {
                HealthState::Unhealthy
            } else {
                self.current()
            }),
    {
    }

    /// A machine that has observed nothing yet.
    pub closed spec fn initial(healthy_threshold: u32, unhealthy_threshold: u32) -> HealthMachine {
        HealthMachine {
            healthy_threshold: if healthy_threshold >= 1 {
                healthy_threshold
            } else {
                1
            },
            unhealthy_threshold: if unhealthy_threshold >= 1 {
                unhealthy_threshold
            } else {
                1
            },
            state: HealthState::Unknown,
            success_streak: 0,
            failure_streak: 0,
        }
    }

    pub fn new(healthy_threshold: u32, unhealthy_threshold: u32) -> (m: Self)
        ensures
            m == Self::initial(healthy_threshold, unhealthy_threshold),
            m.healthy_threshold() == (if healthy_threshold >= 1 {
                healthy_threshold
            } else {
                1
            }),
            m.unhealthy_threshold() == (if unhealthy_threshold >= 1 {
                unhealthy_threshold
            } else {
                1
            }),
            m.current() == HealthState::Unknown,
            m.success_streak() == 0,
            m.failure_streak() == 0,
            m.wf(),
    {
        Self {
            healthy_threshold: if healthy_threshold >= 1 {
                healthy_threshold
            } else {
                1
            },
            unhealthy_threshold: if unhealthy_threshold >= 1 {
                unhealthy_threshold
            } else {
                1
            },
            state: HealthState::Unknown,
            success_streak: 0,
            failure_streak: 0,
        }
    }

    pub fn state(&self) -> (s: HealthState)
        ensures
            s == self.current(),
    {
        self.state
    }

    /// Records one probe result and returns the resulting state.
    pub fn observe(&mut self, ok: bool) -> (s: HealthState)
        ensures
            *final(self) == old(self).step(ok),
            s == final(self).current(),
    {
        if ok {
            self.success_streak = if self.success_streak == u32::MAX {
                u32::MAX
            } else {
                self.success_streak + 1
            };
            self.failure_streak = 0;
            if self.success_streak >= self.healthy_threshold {
                self.state = HealthState::Healthy;
            }
        } else {
            self.failure_streak = if self.failure_streak == u32::MAX {
                u32::MAX
            } else {
                self.failure_streak + 1
            };
            self.success_streak = 0;
            if self.failure_streak >= self.unhealthy_threshold {
                self.state = HealthState::Unhealthy;
            }
        }
        self.state
    }

    /// Forgets all observations; thresholds are kept.
    pub fn reset(&mut self)
        ensures
            final(self).current() == HealthState::Unknown,
            final(self).success_streak() == 0,
            final(self).failure_streak() == 0,
            final(self).healthy_threshold() == old(self).healthy_threshold(),
            final(self).unhealthy_threshold() == old(self).unhealthy_threshold(),
            old(self).wf() ==> *final(self) == Self::initial(
                old(self).healthy_threshold(),
                old(self).unhealthy_threshold(),
            ),
    {
        self.state = HealthState::Unknown;
        self.success_streak = 0;
        self.failure_streak = 0;
    }

    proof fn lemma_run_successes(self, n: nat)
        ensures
            self.run(Seq::new(n, |i: int| true)).success_streak() >= (if self.success_streak()
                + n > u32::MAX {
                u32::MAX as int
            } else {
                self.success_streak() + n
            }),
            n > 0 ==> self.run(Seq::new(n, |i: int| true)).success_streak() >= (if n
                > u32::MAX {
                u32::MAX as int
            } else {
                n as int
            }),
            self.run(Seq::new(n, |i: int| true)).healthy_threshold() == self.healthy_threshold(),
            n > 0 && self.run(Seq::new(n, |i: int| true)).success_streak()
                >= self.healthy_threshold() ==> self.run(Seq::new(n, |i: int| true)).current()
                == HealthState::Healthy,
        decreases n,
    {
        let obs = Seq::new(n, |i: int| true);
        if n > 0 {
            let prev = Seq::new((n - 1) as nat, |i: int| true);
            assert(obs.drop_last() =~= prev);
            assert(obs.last() == obs[n - 1]);
            self.lemma_run_successes((n - 1) as nat);
        }
    }

    proof fn lemma_run_failures(self, n: nat)
        ensures
            n > 0 ==> self.run(Seq::new(n, |i: int| false)).failure_streak() >= (if n
                > u32::MAX {
                u32::MAX as int
            } else {
                n as int
            }),
            self.run(Seq::new(n, |i: int| false)).unhealthy_threshold()
                == self.unhealthy_threshold(),
            n > 0 && self.run(Seq::new(n, |i: int| false)).failure_streak()
                >= self.unhealthy_threshold() ==> self.run(Seq::new(n, |i: int| false)).current()
                == HealthState::Unhealthy,
        decreases n,
    {
        let obs = Seq::new(n, |i: int| false);
        if n > 0 {
            let prev = Seq::new((n - 1) as nat, |i: int| false);
            assert(obs.drop_last() =~= prev);
            assert(obs.last() == obs[n - 1]);
            self.lemma_run_failures((n - 1) as nat);
        }
    }

    /// Law: whatever the history, `healthy_threshold` consecutive successful
    /// probes leave the machine healthy.
    pub proof fn lemma_successes_make_healthy(self, n: nat)
        requires
            n >= self.healthy_threshold(),
            self.wf(),
        ensures
            self.run(Seq::new(n, |i: int| true)).current() == HealthState::Healthy,
    {
        self.lemma_run_successes(n);
    }

    /// Law: whatever the history, `unhealthy_threshold` consecutive failed
    /// probes leave the machine unhealthy.
    pub proof fn lemma_failures_make_unhealthy(self, n: nat)
        requires
            n >= self.unhealthy_threshold(),
            self.wf(),
        ensures
            self.run(Seq::new(n, |i: int| false)).current() == HealthState::Unhealthy,
    {
        self.lemma_run_failures(n);
    }

    /// Law (hysteresis): a healthy machine whose last probe succeeded stays
    /// healthy through fewer than `unhealthy_threshold` failed probes.
    pub proof fn lemma_healthy_tolerates_failures(self, n: nat)
        requires
            self.current() == HealthState::Healthy,
            self.failure_streak() == 0,
            n < self.unhealthy_threshold(),
        ensures
            self.run(Seq::new(n, |i: int| false)).current() == HealthState::Healthy,
            self.run(Seq::new(n, |i: int| false)).failure_streak() == n,
            self.run(Seq::new(n, |i: int| false)).unhealthy_threshold()
                == self.unhealthy_threshold(),
        decreases n,
    {
        let obs = Seq::new(n, |i: int| false);
        if n > 0 {
            let prev = Seq::new((n - 1) as nat, |i: int| false);
            assert(obs.drop_last() =~= prev);
            assert(obs.last() == obs[n - 1]);
            self.lemma_healthy_tolerates_failures((n - 1) as nat);
        }
    }

    /// Law (symmetric hysteresis): an unhealthy machine whose last probe failed
    /// stays unhealthy through fewer than `healthy_threshold` successful probes.
    pub proof fn lemma_unhealthy_tolerates_successes(self, n: nat)
        requires
            self.current() == HealthState::Unhealthy,
            self.success_streak() == 0,
            n < self.healthy_threshold(),
        ensures
            self.run(Seq::new(n, |i: int| true)).current() == HealthState::Unhealthy,
            self.run(Seq::new(n, |i: int| true)).success_streak() == n,
            self.run(Seq::new(n, |i: int| true)).healthy_threshold() == self.healthy_threshold(),
        decreases n,
    {
        let obs = Seq::new(n, |i: int| true);
        if n > 0 {
            let prev = Seq::new((n - 1) as nat, |i: int| true);
            assert(obs.drop_last() =~= prev);
            assert(obs.last() == obs[n - 1]);
            self.lemma_unhealthy_tolerates_successes((n - 1) as nat);
        }
    }

    /// The streaks of a fresh machine after `obs`: the length of the run of
    /// equal results at the end, stopping at `u32::MAX`.
    proof fn lemma_run_streaks(healthy_threshold: u32, unhealthy_threshold: u32, obs: Seq<bool>)
        ensures
            Self::initial(healthy_threshold, unhealthy_threshold).run(obs).success_streak() == capped(
                trailing(obs, true),
            ),
            Self::initial(healthy_threshold, unhealthy_threshold).run(obs).failure_streak() == capped(
                trailing(obs, false),
            ),
            Self::initial(healthy_threshold, unhealthy_threshold).run(obs).healthy_threshold()
                == Self::initial(healthy_threshold, unhealthy_threshold).healthy_threshold(),
            Self::initial(healthy_threshold, unhealthy_threshold).run(obs).unhealthy_threshold()
                == Self::initial(healthy_threshold, unhealthy_threshold).unhealthy_threshold(),
        decreases obs.len(),
    {
        if obs.len() > 0 {
            Self::lemma_run_streaks(healthy_threshold, unhealthy_threshold, obs.drop_last());
        }
    }

    /// Law (the health rule over a history): after a fresh start (`new` or
    /// `reset`) and then the results `obs`, the last of which is `ok`, with
    /// `k` the number of results equal to `ok` at the end of `obs`: a
    /// success leaves the machine healthy when `k` reaches the healthy
    /// threshold and a failure unhealthy when `k` reaches the unhealthy
    /// threshold; otherwise the state before that last result stays.
    pub proof fn lemma_history(healthy_threshold: u32, unhealthy_threshold: u32, obs: Seq<bool>)
        requires
            obs.len() > 0,
        ensures
            ({
                let m = Self::initial(healthy_threshold, unhealthy_threshold);
                let before = m.run(obs.drop_last()).current();
                let after = m.run(obs).current();
                &&& obs.last() ==> after == (if trailing(obs, true) >= m.healthy_threshold() {
                    HealthState::Healthy
                } else {
                    before
                })
                &&& !obs.last() ==> after == (if trailing(obs, false) >= m.unhealthy_threshold() {
                    HealthState::Unhealthy
                } else {
                    before
                })
            }),
    {
        Self::lemma_run_streaks(healthy_threshold, unhealthy_threshold, obs.drop_last());
        Self::lemma_run_streaks(healthy_threshold, unhealthy_threshold, obs);
    }

    /// Law (the health rule over successive `observe` calls): for a machine
    /// that has seen `obs` since a fresh start, observing `ok` gives the
    /// machine that has seen `obs` then `ok`, whose state follows the rule of
    /// `lemma_history` for the run of results equal to `ok` ending with it.
    pub proof fn lemma_observe_after(healthy_threshold: u32, unhealthy_threshold: u32, obs: Seq<bool>, ok: bool)
        ensures
            ({
                let m = Self::initial(healthy_threshold, unhealthy_threshold);
                let before = m.run(obs);
                let after = before.step(ok);
                &&& after == m.run(obs.push(ok))
                &&& ok ==> after.current() == (if trailing(obs.push(ok), true) >= m.healthy_threshold() {
                    HealthState::Healthy
                } else {
                    before.current()
                })
                &&& !ok ==> after.current() == (if trailing(obs.push(ok), false)
                    >= m.unhealthy_threshold() {
                    HealthState::Unhealthy
                } else {
                    before.current()
                })
            }),
    {
        let m = Self::initial(healthy_threshold, unhealthy_threshold);
        m.lemma_run_push(obs, ok);
        assert(obs.push(ok).drop_last() =~= obs);
        Self::lemma_history(healthy_threshold, unhealthy_threshold, obs.push(ok));
    }
}

} // verus!
