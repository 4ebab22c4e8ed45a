//! Restart policy for an engine that exits by itself.
//!
//! The decision — restart, or give up and stay down — needs no process, no clock and no
//! filesystem: times are readings of a monotonic clock in milliseconds, handed in by the caller.
//!
//! Giving up matters as much as restarting. Each restart rewrites the nftables ruleset, so an
//! engine that dies immediately on a bad config would otherwise thrash the firewall forever while
//! the user watches their network flap.

use vstd::prelude::*;

verus! {

/// Restarts allowed inside [`WINDOW_MS`] before the supervisor stops trying.
pub const MAX_RESTARTS: usize = 5;

/// The sliding window, in milliseconds.
pub const WINDOW_MS: u64 = 60_000;

/// Delay before each restart, in milliseconds, indexed by how many have already happened in the
/// window. Capped rather than unbounded: a user waiting on their network is not served by a
/// five-minute backoff.
pub open spec fn backoff_ms(k: nat) -> u64 {
    if k == 0 {
        1_000
    } else if k == 1 {
        2_000
    } else if k == 2 {
        4_000
    } else if k == 3 {
        8_000
    } else {
        15_000
    }
}

fn backoff(k: usize) -> (r: u64)
    requires
        k < MAX_RESTARTS,
    ensures
        r == backoff_ms(k as nat),
{
    if k == 0 {
        1_000
    } else if k == 1 {
        2_000
    } else if k == 2 {
        4_000
    } else if k == 3 {
        8_000
    } else {
        15_000
    }
}

#[derive(Debug, PartialEq, Eq, Structural)]
pub enum Decision {
    /// Restart, once this many milliseconds have passed since the exit.
    RestartAfter(u64),
    /// Too many restarts too quickly. The engine stays down and the reason stands.
    GiveUp { restarts: usize, window: u64 },
}

/// How long ago `t` was at `now`; a reading from the future counts as no time at all.
pub open spec fn elapsed(t: u64, now: u64) -> u64 {
    if now >= t {
        (now - t) as u64
    } else {
        0
    }
}

pub open spec fn in_window(t: u64, now: u64) -> bool {
    elapsed(t, now) < WINDOW_MS
}

/// The restarts still inside the window at `now`, in order.
pub open spec fn keep_recent(s: Seq<u64>, now: u64) -> Seq<u64>
    decreases s.len(),
{
    if s.len() == 0 {
        Seq::empty()
    } else {
        keep_recent(s.drop_last(), now) + if in_window(s.last(), now) {
            seq![s.last()]
        } else {
            Seq::empty()
        }
    }
}

/// What [`Supervisor::on_exit`] decides, given the restart history.
pub open spec fn decide(history: Seq<u64>, now: u64) -> Decision {
    let recent = keep_recent(history, now);
    if recent.len() >= MAX_RESTARTS {
        Decision::GiveUp { restarts: recent.len() as usize, window: WINDOW_MS }
    } else {
        Decision::RestartAfter(backoff_ms(recent.len()))
    }
}

/// The history after [`Supervisor::on_exit`]: pruned to the window, plus this exit when it was
/// answered with a restart.
pub open spec fn after_exit(history: Seq<u64>, now: u64) -> Seq<u64> {
    let recent = keep_recent(history, now);
    if recent.len() >= MAX_RESTARTS {
        recent
    } else {
        recent.push(now)
    }
}

/// Restart history within the sliding window.
#[derive(Debug)]
pub struct Supervisor {
    restarts: Vec<u64>,
}

impl View for Supervisor {
    type V = Seq<u64>;

    closed spec fn view(&self) -> Seq<u64> {
        self.restarts@
    }
}

impl Default for Supervisor {
    fn default() -> (r: Self)
        ensures
            r@ == Seq::<u64>::empty(),
    {
        Supervisor { restarts: Vec::new() }
    }
}

impl Supervisor {
    pub fn new() -> (r: Self)
        ensures
            r@ == Seq::<u64>::empty(),
    {
        Supervisor { restarts: Vec::new() }
    }

    /// Forgets the history. Called on a deliberate start or stop, so a user fixing their config is
    /// not still being judged on the crash loop from before the fix.
    pub fn reset(&mut self)
        ensures
            final(self)@ == Seq::<u64>::empty(),
    {
        self.restarts.clear();
    }

    /// Drops restarts that have left the window and counts the rest.
    pub fn restarts_in_window(&mut self, now: u64) -> (r: usize)
        ensures
            final(self)@ == keep_recent(old(self)@, now),
            r == keep_recent(old(self)@, now).len(),
    {
        let ghost old_s = self.restarts@;
        let mut kept: Vec<u64> = Vec::new();
        let n = self.restarts.len();
        let mut i: usize = 0;
        assert(old_s.take(0) =~= Seq::<u64>::empty());
        while i < n
            invariant
                n == old_s.len(),
                self.restarts@ == old_s,
                i <= n,
                kept@ == keep_recent(old_s.take(i as int), now),
                kept@.len() <= i,
            decreases n - i,
        {
            let t = self.restarts[i];
            let since = if now >= t {
                now - t
            } else {
                0
            };
            if since < WINDOW_MS {
                kept.push(t);
            }
            proof {
                let p = old_s.take(i + 1);
                assert(p.drop_last() =~= old_s.take(i as int));
                assert(p.last() == t);
                assert(kept@ =~= keep_recent(p, now));
            }
            i = i + 1;
        }
        assert(old_s.take(n as int) =~= old_s);
        self.restarts = kept;
        self.restarts.len()
    }

    /// Call when the engine has been found dead. Records the attempt when it says to restart.
    pub fn on_exit(&mut self, now: u64) -> (r: Decision)
        ensures
            r == decide(old(self)@, now),
            final(self)@ == after_exit(old(self)@, now),
    {
        let recent = self.restarts_in_window(now);
        if recent >= MAX_RESTARTS {
            return Decision::GiveUp { restarts: recent, window: WINDOW_MS };
        }
        self.restarts.push(now);
        Decision::RestartAfter(backoff(recent))
    }
}

// ---------------------------------------------------------------------------------------------
// Laws
// ---------------------------------------------------------------------------------------------

pub proof fn lemma_keep_recent_members(s: Seq<u64>, now: u64)
    ensures
        keep_recent(s, now).len() <= s.len(),
        forall|i: int|
            0 <= i < keep_recent(s, now).len() ==> in_window(#[trigger] keep_recent(s, now)[i], now),
    decreases s.len(),
{
    if s.len() > 0 {
        lemma_keep_recent_members(s.drop_last(), now);
        let a = keep_recent(s.drop_last(), now);
        let b: Seq<u64> = if in_window(s.last(), now) {
            seq![s.last()]
        } else {
            Seq::empty()
        };
        assert forall|i: int| 0 <= i < (a + b).len() implies in_window(#[trigger] (a + b)[i], now) by {
            if i >= a.len() {
                assert((a + b)[i] == b[i - a.len()]);
            }
        }
    }
}

pub proof fn lemma_keep_recent_all_old(s: Seq<u64>, now: u64)
    requires
        forall|i: int| 0 <= i < s.len() ==> !in_window(#[trigger] s[i], now),
    ensures
        keep_recent(s, now) == Seq::<u64>::empty(),
    decreases s.len(),
{
    if s.len() > 0 {
        assert forall|i: int| 0 <= i < s.drop_last().len() implies !in_window(
            #[trigger] s.drop_last()[i],
            now,
        ) by {
            assert(s.drop_last()[i] == s[i]);
        }
        lemma_keep_recent_all_old(s.drop_last(), now);
        assert(!in_window(s[s.len() - 1], now));
        assert(keep_recent(s, now) =~= Seq::<u64>::empty());
    }
}

pub proof fn lemma_keep_recent_all_new(s: Seq<u64>, now: u64)
    requires
        forall|i: int| 0 <= i < s.len() ==> in_window(#[trigger] s[i], now),
    ensures
        keep_recent(s, now) == s,
    decreases s.len(),
{
    if s.len() > 0 {
        assert forall|i: int| 0 <= i < s.drop_last().len() implies in_window(
            #[trigger] s.drop_last()[i],
            now,
        ) by {
            assert(s.drop_last()[i] == s[i]);
        }
        lemma_keep_recent_all_new(s.drop_last(), now);
        assert(in_window(s[s.len() - 1], now));
        assert(keep_recent(s, now) =~= s);
    }
}

/// The history never holds more than [`MAX_RESTARTS`] restarts inside the window, and only
/// restarts inside it, whatever state it starts from.
pub proof fn history_stays_within_the_allowance(history: Seq<u64>, now: u64)
    ensures
        after_exit(history, now).len() <= MAX_RESTARTS || after_exit(history, now) == keep_recent(
            history,
            now,
        ),
        forall|i: int|
            0 <= i < after_exit(history, now).len() ==> in_window(
                #[trigger] after_exit(history, now)[i],
                now,
            ),
{
    lemma_keep_recent_members(history, now);
    let recent = keep_recent(history, now);
    if recent.len() < MAX_RESTARTS {
        assert forall|i: int| 0 <= i < recent.push(now).len() implies in_window(
            #[trigger] recent.push(now)[i],
            now,
        ) by {
            if i < recent.len() {
                assert(recent.push(now)[i] == recent[i]);
            }
        }
    }
}

/// Each restart waits longer than the one before, up to the last allowed.
pub proof fn backoff_grows(k: nat)
    requires
        k + 1 < MAX_RESTARTS,
    ensures
        backoff_ms(k) < backoff_ms(k + 1),
{
}

/// A crash loop is given up on: with [`MAX_RESTARTS`] restarts still inside the window, the next
/// exit is not restarted and the history is left as it was.
pub proof fn gives_up_after_a_crash_loop(history: Seq<u64>, now: u64)
    requires
        history.len() >= MAX_RESTARTS,
        forall|i: int| 0 <= i < history.len() ==> in_window(#[trigger] history[i], now),
    ensures
        decide(history, now) == (Decision::GiveUp {
            restarts: history.len() as usize,
            window: WINDOW_MS,
        }),
        after_exit(history, now) == history,
{
    lemma_keep_recent_all_new(history, now);
}

/// An old crash does not count against a later one: once every recorded restart has left the
/// window, the next exit gets the full allowance again.
pub proof fn an_old_crash_does_not_count(history: Seq<u64>, now: u64)
    requires
        forall|i: int| 0 <= i < history.len() ==> !in_window(#[trigger] history[i], now),
    ensures
        decide(history, now) == Decision::RestartAfter(backoff_ms(0)),
        after_exit(history, now) == seq![now],
{
    lemma_keep_recent_all_old(history, now);
    assert(Seq::<u64>::empty().push(now) =~= seq![now]);
}

/// Restarts at one instant back off 1s, 2s, 4s, 8s and 15s, and the sixth is given up on.
pub proof fn backs_off_further_on_each_restart(now: u64)
    ensures
        ({
            let h0 = Seq::<u64>::empty();
            let h1 = after_exit(h0, now);
            let h2 = after_exit(h1, now);
            let h3 = after_exit(h2, now);
            let h4 = after_exit(h3, now);
            let h5 = after_exit(h4, now);
            &&& decide(h0, now) == Decision::RestartAfter(1_000)
            &&& decide(h1, now) == Decision::RestartAfter(2_000)
            &&& decide(h2, now) == Decision::RestartAfter(4_000)
            &&& decide(h3, now) == Decision::RestartAfter(8_000)
            &&& decide(h4, now) == Decision::RestartAfter(15_000)
            &&& decide(h5, now) == (Decision::GiveUp { restarts: 5, window: WINDOW_MS })
        }),
{
    let h0 = Seq::<u64>::empty();
    assert(in_window(now, now));
    assert(keep_recent(h0, now) =~= h0);
    let h1 = after_exit(h0, now);
    assert(h1 =~= seq![now]);
    lemma_keep_recent_all_new(h1, now);
    let h2 = after_exit(h1, now);
    assert(h2 =~= seq![now, now]);
    lemma_keep_recent_all_new(h2, now);
    let h3 = after_exit(h2, now);
    assert(h3 =~= seq![now, now, now]);
    lemma_keep_recent_all_new(h3, now);
    let h4 = after_exit(h3, now);
    assert(h4 =~= seq![now, now, now, now]);
    lemma_keep_recent_all_new(h4, now);
    let h5 = after_exit(h4, now);
    assert(h5 =~= seq![now, now, now, now, now]);
    lemma_keep_recent_all_new(h5, now);
}

} // verus!
