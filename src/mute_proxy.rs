//! The mute proxy's decisions: it serialises mute requests and keeps newly
//! started processes unmuted while they may still reset their own state.

use std::collections::HashSet;
use vstd::prelude::*;

verus! {

broadcast use vstd::std_specs::hash::group_hash_axioms;

/// A process younger than this, in milliseconds, gets the debounce.
pub const PROCESS_AGE_THRESHOLD_MS: u64 = 5000;

/// The delay between two follow-ups of the debounce, in milliseconds.
pub const FOLLOWUP_DELAY_MS: u64 = 1000;

/// Past the threshold, one more unmute is issued within this window.
pub const GRACE_MS: u64 = 1000;

/// The proxy's inbox. Times are milliseconds on the caller's clock.
#[derive(Clone, Copy, PartialEq, Eq, Structural, Debug)]
pub enum MuteProxyMessage {
    Mute(u32),
    Unmute(u32, bool),
    UnmuteFollowup(u32, u64),
}

/// What the caller is to do: call the audio backend, or send the proxy an
/// `UnmuteFollowup` for this pid and start time after `FOLLOWUP_DELAY_MS`.
#[derive(Clone, Copy, PartialEq, Eq, Structural, Debug)]
pub enum ProxyAction {
    SetMute(u32, bool),
    ScheduleFollowup(u32, u64),
}

/// One message: the pids under debounce before and after, and the actions.
/// `start` is the start time of the process of an `Unmute`, where known;
/// `now` is the time the message is handled.
pub open spec fn proxy_step(
    unmuting: Set<u32>,
    message: MuteProxyMessage,
    start: Option<u64>,
    now: int,
) -> (Set<u32>, Seq<ProxyAction>) {
    match message {
        MuteProxyMessage::Mute(pid) => (unmuting.remove(pid), seq![ProxyAction::SetMute(pid, true)]),
        MuteProxyMessage::Unmute(pid, aggressive) => {
            if aggressive && !unmuting.contains(pid) && start is Some && now - start->0
                < PROCESS_AGE_THRESHOLD_MS {
                (
                    unmuting.insert(pid),
                    seq![
                        ProxyAction::SetMute(pid, false),
                        ProxyAction::ScheduleFollowup(pid, start->0),
                    ],
                )
            } else {
                (unmuting, seq![ProxyAction::SetMute(pid, false)])
            }
        },
        MuteProxyMessage::UnmuteFollowup(pid, s) => {
            if !unmuting.contains(pid) {
                (unmuting, Seq::empty())
            } else if now - s < PROCESS_AGE_THRESHOLD_MS {
                (
                    unmuting,
                    seq![ProxyAction::SetMute(pid, false), ProxyAction::ScheduleFollowup(pid, s)],
                )
            } else if now - s < PROCESS_AGE_THRESHOLD_MS + GRACE_MS {
                (unmuting.remove(pid), seq![ProxyAction::SetMute(pid, false)])
            } else {
                (unmuting.remove(pid), Seq::empty())
            }
        },
    }
}

/// The state of the proxy: the pids under debounce.
pub struct MuteProxyState {
    currently_unmuting: HashSet<u32>,
}

impl View for MuteProxyState {
    type V = Set<u32>;

    closed spec fn view(&self) -> Set<u32> {
        self.currently_unmuting@
    }
}

impl MuteProxyState {
    pub fn new() -> (r: MuteProxyState)
        ensures
            r@ == Set::<u32>::empty(),
    {
        MuteProxyState { currently_unmuting: HashSet::new() }
    }

    /// Whether `pid` is under debounce.
    pub fn is_unmuting(&self, pid: u32) -> (r: bool)
        ensures
            r == self@.contains(pid),
    {
        self.currently_unmuting.contains(&pid)
    }

    /// Whether handling `message` reads the start time of its process.
    pub fn needs_start_time(&self, message: &MuteProxyMessage) -> (r: bool)
        ensures
            r == (*message matches MuteProxyMessage::Unmute(pid, true) && !self@.contains(pid)),
    {
        match message {
            MuteProxyMessage::Unmute(pid, aggressive) => *aggressive && !self.is_unmuting(*pid),
            _ => false,
        }
    }

    fn track(&mut self, pid: u32)
        ensures
            final(self)@ == old(self)@.insert(pid),
    {
        self.currently_unmuting.insert(pid);
    }

    fn untrack(&mut self, pid: u32)
        ensures
            final(self)@ == old(self)@.remove(pid),
    {
        self.currently_unmuting.remove(&pid);
    }

    /// Handles one message of the proxy's inbox, in order. `start_time` is
    /// the start time of the process of an aggressive `Unmute` where
    /// `needs_start_time` asks for it and the system reports it; `now` is the
    /// time of handling. A start time read is never later than `now`.
    pub fn process_message(
        &mut self,
        message: MuteProxyMessage,
        start_time: Option<u64>,
        now: u64,
    ) -> (r: Vec<ProxyAction>)
        requires
            message matches MuteProxyMessage::Unmute(pid, true) ==> (!old(self)@.contains(pid)
                && start_time is Some ==> start_time->0 <= now),
            message matches MuteProxyMessage::UnmuteFollowup(pid, s) ==> (old(self)@.contains(pid)
                ==> s <= now),
        ensures
            (final(self)@, r@) == proxy_step(old(self)@, message, start_time, now as int),
    {
        match message {
            MuteProxyMessage::Mute(pid) => {
                self.untrack(pid);
                let mut r: Vec<ProxyAction> = Vec::new();
                r.push(ProxyAction::SetMute(pid, true));
                assert(r@ =~= seq![ProxyAction::SetMute(pid, true)]);
                r
            },
            MuteProxyMessage::Unmute(pid, aggressive) => {
                let mut r: Vec<ProxyAction> = Vec::new();
                r.push(ProxyAction::SetMute(pid, false));
                if aggressive && !self.is_unmuting(pid) {
                    if let Some(start) = start_time {
                        if now - start < PROCESS_AGE_THRESHOLD_MS {
                            self.track(pid);
                            r.push(ProxyAction::ScheduleFollowup(pid, start));
                        }
                    }
                }
                assert(r@ =~= proxy_step(old(self)@, message, start_time, now as int).1);
                r
            },
            MuteProxyMessage::UnmuteFollowup(pid, start) => {
                let mut r: Vec<ProxyAction> = Vec::new();
                if self.is_unmuting(pid) {
                    let age = now - start;
                    if age < PROCESS_AGE_THRESHOLD_MS {
                        r.push(ProxyAction::SetMute(pid, false));
                        r.push(ProxyAction::ScheduleFollowup(pid, start));
                    } else if age < PROCESS_AGE_THRESHOLD_MS + GRACE_MS {
                        r.push(ProxyAction::SetMute(pid, false));
                        self.untrack(pid);
                    } else {
                        self.untrack(pid);
                    }
                }
                assert(r@ =~= proxy_step(old(self)@, message, start_time, now as int).1);
                r
            },
        }
    }
}

/// The actions of a debounce that unmutes `n + 1` times: an unmute and a
/// follow-up, `n` times, then a last unmute.
pub open spec fn debounce_pattern(pid: u32, start: u64, n: nat) -> Seq<ProxyAction>
    decreases n,
{
    if n == 0 {
        seq![ProxyAction::SetMute(pid, false)]
    } else {
        seq![ProxyAction::SetMute(pid, false), ProxyAction::ScheduleFollowup(pid, start)]
            + debounce_pattern(pid, start, (n - 1) as nat)
    }
}

/// Follow-ups for `pid` handled at `now`, `now + FOLLOWUP_DELAY_MS`, ...,
/// each sent by the one before, at most `budget + 1` of them.
pub open spec fn followup_run(
    unmuting: Set<u32>,
    pid: u32,
    start: u64,
    now: int,
    budget: nat,
) -> (Set<u32>, Seq<ProxyAction>)
    decreases budget,
{
    let (next, actions) = proxy_step(
        unmuting,
        MuteProxyMessage::UnmuteFollowup(pid, start),
        None,
        now,
    );
    if budget > 0 && actions.len() > 0 && actions.last() == ProxyAction::ScheduleFollowup(
        pid,
        start,
    ) {
        let (last, rest) = followup_run(next, pid, start, now + FOLLOWUP_DELAY_MS, (budget - 1) as nat);
        (last, actions + rest)
    } else {
        (next, actions)
    }
}

/// The follow-ups still to come for a process of age `age`.
pub open spec fn followups_left(age: int) -> nat {
    if age >= PROCESS_AGE_THRESHOLD_MS {
        0
    } else {
        ((PROCESS_AGE_THRESHOLD_MS - age + FOLLOWUP_DELAY_MS - 1) / FOLLOWUP_DELAY_MS as int) as nat
    }
}

proof fn lemma_followup_run(unmuting: Set<u32>, pid: u32, start: u64, age: int, budget: nat)
    requires
        unmuting.contains(pid),
        0 <= age < PROCESS_AGE_THRESHOLD_MS + GRACE_MS,
        budget >= followups_left(age),
    ensures
        followup_run(unmuting, pid, start, start + age, budget) == (
            unmuting.remove(pid),
            debounce_pattern(pid, start, followups_left(age)),
        ),
    decreases budget,
{
    let now = start + age;
    if age < PROCESS_AGE_THRESHOLD_MS {
        let next_age = age + FOLLOWUP_DELAY_MS;
        assert(followups_left(age) >= 1);
        assert(followups_left(next_age) + 1 == followups_left(age));
        assert(start + next_age == now + FOLLOWUP_DELAY_MS);
        lemma_followup_run(unmuting, pid, start, next_age, (budget - 1) as nat);
    }
}

/// A process that gets an aggressive unmute at age `age`, under the
/// threshold, is unmuted at ages `age`, `age + 1000`, ... while it is under
/// the threshold, once more at the first age past it, and then no more: the
/// number of unmutes is bounded and fixed by `age`, and the proxy forgets
/// the pid. Follow-ups are taken to arrive after exactly the delay.
pub proof fn lemma_debounce_terminates(unmuting: Set<u32>, pid: u32, start: u64, age: int)
    requires
        !unmuting.contains(pid),
        0 <= age < PROCESS_AGE_THRESHOLD_MS,
    ensures
        ({
            let n = followups_left(age);
            let (debouncing, first) = proxy_step(
                unmuting,
                MuteProxyMessage::Unmute(pid, true),
                Some(start),
                start + age,
            );
            let (last, rest) = followup_run(debouncing, pid, start, start + age + FOLLOWUP_DELAY_MS, n);
            &&& first + rest == debounce_pattern(pid, start, n)
            &&& last == unmuting
            &&& forall|later: int|
                proxy_step(last, MuteProxyMessage::UnmuteFollowup(pid, start), None, later).1
                    == Seq::<ProxyAction>::empty()
        }),
{
    let n = followups_left(age);
    let debouncing = unmuting.insert(pid);
    assert(n >= 1);
    assert(followups_left(age + FOLLOWUP_DELAY_MS) + 1 == n);
    lemma_followup_run(debouncing, pid, start, age + FOLLOWUP_DELAY_MS, n);
    assert(debouncing.remove(pid) =~= unmuting);
    let (t, first) = proxy_step(unmuting, MuteProxyMessage::Unmute(pid, true), Some(start), start + age);
    assert(first + debounce_pattern(pid, start, (n - 1) as nat) =~= debounce_pattern(pid, start, n));
}

/// Follow-ups for `pid` handled at `now` and then, while each sends the
/// next, `gaps[0]`, `gaps[1]`, ... milliseconds after the one before.
pub open spec fn followup_chain(
    unmuting: Set<u32>,
    pid: u32,
    start: u64,
    now: int,
    gaps: Seq<int>,
) -> (Set<u32>, Seq<ProxyAction>)
    decreases gaps.len(),
{
    let (next, actions) = proxy_step(
        unmuting,
        MuteProxyMessage::UnmuteFollowup(pid, start),
        None,
        now,
    );
    if gaps.len() > 0 && actions.len() > 0 && actions.last() == ProxyAction::ScheduleFollowup(
        pid,
        start,
    ) {
        let (last, rest) = followup_chain(next, pid, start, now + gaps[0], gaps.drop_first());
        (last, actions + rest)
    } else {
        (next, actions)
    }
}

/// The number of unmute calls for `pid` among `actions`.
pub open spec fn unmute_count(actions: Seq<ProxyAction>, pid: u32) -> nat
    decreases actions.len(),
{
    if actions.len() == 0 {
        0
    } else {
        unmute_count(actions.drop_last(), pid) + if actions.last() == ProxyAction::SetMute(
            pid,
            false,
        ) {
            1nat
        } else {
            0nat
        }
    }
}

proof fn lemma_unmute_count_concat(a: Seq<ProxyAction>, b: Seq<ProxyAction>, pid: u32)
    ensures
        unmute_count(a + b, pid) == unmute_count(a, pid) + unmute_count(b, pid),
    decreases b.len(),
{
    if b.len() == 0 {
        assert(a + b =~= a);
    } else {
        assert((a + b).drop_last() =~= a + b.drop_last());
        lemma_unmute_count_concat(a, b.drop_last(), pid);
    }
}

proof fn lemma_followups_left_decreases(x: int, y: int)
    requires
        0 <= x < PROCESS_AGE_THRESHOLD_MS,
        y >= x + FOLLOWUP_DELAY_MS,
    ensures
        followups_left(y) + 1 <= followups_left(x),
{
    assert(followups_left(x) >= 1);
    if y < PROCESS_AGE_THRESHOLD_MS {
        assert((5000 - y + 999) / 1000 <= (5000 - x - 1000 + 999) / 1000) by (nonlinear_arith)
            requires
                5000 - y + 999 <= 5000 - x - 1000 + 999,
                0 <= 5000 - y + 999,
        ;
        assert((5000 - x - 1000 + 999) / 1000 == (5000 - x + 999) / 1000 - 1);
    }
}

proof fn lemma_followup_chain_bounded(
    unmuting: Set<u32>,
    pid: u32,
    start: u64,
    age: int,
    gaps: Seq<int>,
)
    requires
        unmuting.contains(pid),
        age >= 0,
        forall|k: int| 0 <= k < gaps.len() ==> #[trigger] gaps[k] >= FOLLOWUP_DELAY_MS,
    ensures
        unmute_count(followup_chain(unmuting, pid, start, start + age, gaps).1, pid)
            <= followups_left(age) + 1,
        gaps.len() >= followups_left(age) ==> followup_chain(
            unmuting,
            pid,
            start,
            start + age,
            gaps,
        ).0 == unmuting.remove(pid),
    decreases gaps.len(),
{
    let now = start + age;
    let (next, actions) = proxy_step(
        unmuting,
        MuteProxyMessage::UnmuteFollowup(pid, start),
        None,
        now,
    );
    reveal_with_fuel(unmute_count, 3);
    if age < PROCESS_AGE_THRESHOLD_MS {
        assert(actions == seq![ProxyAction::SetMute(pid, false), ProxyAction::ScheduleFollowup(pid, start)]);
        assert(followups_left(age) >= 1);
        if gaps.len() > 0 {
            let next_age = age + gaps[0];
            assert(gaps[0] >= FOLLOWUP_DELAY_MS);
            lemma_followups_left_decreases(age, next_age);
            assert forall|k: int| 0 <= k < gaps.drop_first().len() implies #[trigger] gaps.drop_first()[k]
                >= FOLLOWUP_DELAY_MS by {
                assert(gaps.drop_first()[k] == gaps[k + 1]);
            }
            assert(start + next_age == now + gaps[0]);
            lemma_followup_chain_bounded(next, pid, start, next_age, gaps.drop_first());
            let (last, rest) = followup_chain(next, pid, start, now + gaps[0], gaps.drop_first());
            lemma_unmute_count_concat(actions, rest, pid);
            assert(unmute_count(actions, pid) == 1) by {
                assert(actions.drop_last() =~= seq![ProxyAction::SetMute(pid, false)]);
                assert(actions.drop_last().drop_last() =~= Seq::<ProxyAction>::empty());
            }
        }
    } else if age < PROCESS_AGE_THRESHOLD_MS + GRACE_MS {
        assert(actions.drop_last() =~= Seq::<ProxyAction>::empty());
    }
}

/// A process that gets an aggressive unmute at age `age`, under the
/// threshold, and whose follow-ups each arrive `gaps[k]` milliseconds after
/// they were sent, at least the scheduled delay, is unmuted at most
/// `followups_left(age) + 1` times; once `followups_left(age)` follow-ups
/// have arrived, the proxy has let the pid go. The bound depends on the
/// process's age alone, however late the follow-ups come.
pub proof fn lemma_debounce_bounded(
    unmuting: Set<u32>,
    pid: u32,
    start: u64,
    age: int,
    gaps: Seq<int>,
)
    requires
        !unmuting.contains(pid),
        0 <= age < PROCESS_AGE_THRESHOLD_MS,
        gaps.len() >= 1,
        forall|k: int| 0 <= k < gaps.len() ==> #[trigger] gaps[k] >= FOLLOWUP_DELAY_MS,
    ensures
        ({
            let (debouncing, first) = proxy_step(
                unmuting,
                MuteProxyMessage::Unmute(pid, true),
                Some(start),
                start + age,
            );
            let (last, rest) = followup_chain(
                debouncing,
                pid,
                start,
                start + age + gaps[0],
                gaps.drop_first(),
            );
            &&& unmute_count(first + rest, pid) <= followups_left(age) + 1
            &&& gaps.len() >= followups_left(age) ==> last == unmuting
        }),
{
    let debouncing = unmuting.insert(pid);
    let first = seq![ProxyAction::SetMute(pid, false), ProxyAction::ScheduleFollowup(pid, start)];
    let next_age = age + gaps[0];
    lemma_followups_left_decreases(age, next_age);
    assert forall|k: int| 0 <= k < gaps.drop_first().len() implies #[trigger] gaps.drop_first()[k]
        >= FOLLOWUP_DELAY_MS by {
        assert(gaps.drop_first()[k] == gaps[k + 1]);
    }
    assert(start + next_age == start + age + gaps[0]);
    lemma_followup_chain_bounded(debouncing, pid, start, next_age, gaps.drop_first());
    let (last, rest) = followup_chain(debouncing, pid, start, start + next_age, gaps.drop_first());
    lemma_unmute_count_concat(first, rest, pid);
    reveal_with_fuel(unmute_count, 3);
    assert(first.drop_last() =~= seq![ProxyAction::SetMute(pid, false)]);
    assert(first.drop_last().drop_last() =~= Seq::<ProxyAction>::empty());
    assert(debouncing.remove(pid) =~= unmuting);
}

/// Milliseconds from the start of the Windows file-time epoch (1601) to the
/// Unix epoch (1970).
pub const FILETIME_UNIX_OFFSET_MS: u64 = 11644473600000;

/// A process start time as the system reports it, a file time in two halves
/// counting 100 ns since 1601, as milliseconds since the Unix epoch; `None`
/// for a time before 1970.
pub fn filetime_to_unix_ms(high: u32, low: u32) -> (r: Option<u64>)
    ensures
        ({
            let ms = (high as int * 0x1_0000_0000 + low as int) / 10000;
            &&& ms >= FILETIME_UNIX_OFFSET_MS ==> r == Some((ms - FILETIME_UNIX_OFFSET_MS) as u64)
            &&& ms < FILETIME_UNIX_OFFSET_MS ==> r is None
        }),
{
    assert(high as int * 0x1_0000_0000 + low as int <= u64::MAX) by (nonlinear_arith)
        requires high <= u32::MAX, low <= u32::MAX;
    let ticks: u64 = (high as u64) * 0x1_0000_0000 + (low as u64);
    let ms = ticks / 10000;
    if ms >= FILETIME_UNIX_OFFSET_MS {
        Some(ms - FILETIME_UNIX_OFFSET_MS)
    } else {
        None
    }
}

} // verus!
