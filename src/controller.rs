//! The core state machine: it owns the policy and the foreground window, and
//! turns window changes and user commands into mute and unmute directives.

use vstd::prelude::*;
use crate::config::{AnnieConfig, ConfigView, has_program};
use crate::path::{ProgramPath, same_program};
use crate::tray::TrayEvent;
use crate::window::{Window, WindowView, window_option_view};

verus! {

/// Commands for the core, in the order they were sent.
#[derive(Debug)]
pub enum CoreMessage {
    NewForegroundWindow(usize),
    SetEnabledGlobal(bool),
    SetEnabledApp(ProgramPath, bool),
    OpenConfig,
    ReloadConfig,
    ForceUnmuteAll,
    ExitApplication,
}

/// A request to the mute proxy: mute a process, or unmute it, with the
/// debounce for newly started processes when the flag is set.
#[derive(Clone, Copy, PartialEq, Eq, Structural, Debug)]
pub enum MuteDirective {
    Mute(u32),
    Unmute(u32, bool),
}

pub open spec fn directive_pid(d: MuteDirective) -> u32 {
    match d {
        MuteDirective::Mute(p) => p,
        MuteDirective::Unmute(p, _) => p,
    }
}

/// What the caller is to do after a command: send the directives to the mute
/// proxy in order, publish the tray event, and save the policy if asked.
pub struct CoreOutcome {
    pub directives: Vec<MuteDirective>,
    pub tray_event: Option<TrayEvent>,
    pub persist: bool,
}

pub struct CoreView {
    pub config: ConfigView,
    pub foreground_window: Option<WindowView>,
}

/// The policy and the window the core believes has focus.
pub struct AnnieCore {
    config: AnnieConfig,
    foreground_window: Option<Window>,
}

impl View for AnnieCore {
    type V = CoreView;

    closed spec fn view(&self) -> CoreView {
        CoreView {
            config: self.config@,
            foreground_window: window_option_view(self.foreground_window),
        }
    }
}

/// Programs under this directory are not offered as recent apps.
pub const SYSTEM_DIR: &'static str = "C:\\Windows\\";

pub open spec fn is_system_path(p: Seq<char>) -> bool {
    SYSTEM_DIR@.is_prefix_of(p)
}

pub open spec fn is_managed_in(c: ConfigView, p: Seq<char>) -> bool {
    has_program(c.managed_apps, p)
}

/// The directives for a change of foreground window from `old` to `new`:
/// nothing while muting is off or when the same process keeps the focus;
/// otherwise mute the old process if managed, then unmute the new one, with
/// the debounce, if managed.
pub open spec fn window_directives(
    c: ConfigView,
    old: Option<WindowView>,
    new: WindowView,
) -> Seq<MuteDirective> {
    let switches = match old {
        Some(o) => o.pid != new.pid,
        None => true,
    };
    let mute_old = match old {
        Some(o) => if is_managed_in(c, o.program_path) {
            seq![MuteDirective::Mute(o.pid)]
        } else {
            Seq::empty()
        },
        None => Seq::empty(),
    };
    let unmute_new = if is_managed_in(c, new.program_path) {
        seq![MuteDirective::Unmute(new.pid, true)]
    } else {
        Seq::empty()
    };
    if c.enabled && switches {
        mute_old + unmute_new
    } else {
        Seq::empty()
    }
}

/// Whether focusing `new` after `old` is announced to the tray as a recent
/// app: the program changed and is not a system program.
pub open spec fn announces_recent(old: Option<WindowView>, new: WindowView) -> bool {
    &&& !is_system_path(new.program_path)
    &&& match old {
        Some(o) => !same_program(o.program_path, new.program_path),
        None => true,
    }
}

/// The foreground window after a window change that resolved to `resolved`.
pub open spec fn window_step(fg: Option<WindowView>, resolved: Option<WindowView>) -> Option<
    WindowView,
> {
    match resolved {
        Some(w) => Some(w),
        None => fg,
    }
}

/// The directive for a process when the policy is applied anew: unmute the
/// foreground process, mute every other.
pub open spec fn status_directive(fg: Option<WindowView>, pid: u32) -> MuteDirective {
    if fg matches Some(w) && w.pid == pid {
        MuteDirective::Unmute(pid, false)
    } else {
        MuteDirective::Mute(pid)
    }
}

pub open spec fn window_pids(ws: Seq<Window>) -> Set<u32> {
    Set::new(|p: u32| exists|i: int| 0 <= i < ws.len() && #[trigger] ws[i].pid == p)
}

/// `ds` unmutes each process of `pids` once, without the debounce, in
/// increasing pid order, and does nothing else.
pub open spec fn relaxes_exactly(ds: Seq<MuteDirective>, pids: Set<u32>) -> bool {
    &&& forall|i: int|
        0 <= i < ds.len() ==> (#[trigger] ds[i]) == MuteDirective::Unmute(directive_pid(ds[i]), false)
            && pids.contains(directive_pid(ds[i]))
    &&& forall|p: u32|
        pids.contains(p) ==> exists|i: int|
            0 <= i < ds.len() && #[trigger] ds[i] == MuteDirective::Unmute(p, false)
    &&& forall|i: int, j: int|
        0 <= i < j < ds.len() ==> directive_pid(#[trigger] ds[i]) < directive_pid(#[trigger] ds[j])
}

fn starts_with(s: &str, prefix: &str) -> (r: bool)
    ensures
        r == prefix@.is_prefix_of(s@),
{
    let n = prefix.unicode_len();
    let m = s.unicode_len();
    if n > m {
        return false;
    }
    let mut i: usize = 0;
    while i < n
        invariant
            n == prefix@.len(),
            m == s@.len(),
            n <= m,
            i <= n,
            forall|k: int| 0 <= k < i ==> prefix@[k] == s@[k],
        decreases n - i,
    {
        if prefix.get_char(i) != s.get_char(i) {
            return false;
        }
        i = i + 1;
    }
    true
}

/// The distinct pids of `windows`, in increasing order.
fn distinct_pids(windows: &Vec<Window>) -> (r: Vec<u32>)
    ensures
        forall|i: int, j: int| 0 <= i < j < r@.len() ==> r@[i] < r@[j],
        forall|p: u32| r@.contains(p) == window_pids(windows@).contains(p),
{
    let mut pids: Vec<u32> = Vec::new();
    let mut i: usize = 0;
    while i < windows.len()
        invariant
            i <= windows@.len(),
            forall|a: int, b: int| 0 <= a < b < pids@.len() ==> pids@[a] < pids@[b],
            forall|p: u32|
                pids@.contains(p) == exists|k: int| 0 <= k < i && #[trigger] windows@[k].pid == p,
        decreases windows.len() - i,
    {
        let pid = windows[i].pid;
        let ghost before = pids@;
        assert(forall|p: u32| before.contains(p) == exists|k: int| 0 <= k < i && #[trigger] windows@[k].pid == p);
        let mut j: usize = 0;
        while j < pids.len() && pids[j] < pid
            invariant
                j <= pids@.len(),
                forall|k: int| 0 <= k < j ==> pids@[k] < pid,
            decreases pids.len() - j,
        {
            j = j + 1;
        }
        if j < pids.len() && pids[j] == pid {
            assert(before.contains(pid) && before[j as int] == pid);
        } else {
            pids.insert(j, pid);
            assert(pids@ =~= before.insert(j as int, pid));
            assert forall|p: u32| pids@.contains(p) == (before.contains(p) || p == pid) by {
                if pids@.contains(p) {
                    let k = choose|k: int| 0 <= k < pids@.len() && pids@[k] == p;
                    if k < j {
                        assert(before[k] == p);
                    } else if k > j {
                        assert(before[k - 1] == p);
                    }
                }
                if before.contains(p) {
                    let k = choose|k: int| 0 <= k < before.len() && before[k] == p;
                    if k < j {
                        assert(pids@[k] == p);
                    } else {
                        assert(pids@[k + 1] == p);
                    }
                }
                if p == pid {
                    assert(pids@[j as int] == p);
                }
            }
        }
        assert forall|p: u32| pids@.contains(p) == (before.contains(p) || p == pid) by {
            if p == pid && !pids@.contains(p) {
                assert(before.contains(pid));
            }
        }
        assert forall|p: u32|
            pids@.contains(p) == exists|k: int| 0 <= k < i + 1 && #[trigger] windows@[k].pid == p by {
            assert(before.contains(p) == exists|k: int| 0 <= k < i && #[trigger] windows@[k].pid == p);
            if p == pid {
                assert(windows@[i as int].pid == p);
            }
            if exists|k: int| 0 <= k < i + 1 && #[trigger] windows@[k].pid == p {
                let k = choose|k: int| 0 <= k < i + 1 && #[trigger] windows@[k].pid == p;
                if k < i {
                    assert(exists|k: int| 0 <= k < i && #[trigger] windows@[k].pid == p);
                }
            }
        }
        i = i + 1;
    }
    assert forall|p: u32| pids@.contains(p) == window_pids(windows@).contains(p) by {
        if window_pids(windows@).contains(p) {
            let k = choose|k: int| 0 <= k < windows@.len() && #[trigger] windows@[k].pid == p;
        }
    }
    pids
}

/// Unmutes, without the debounce, every process that has an open window:
/// each once, in increasing pid order.
pub fn force_unmute_all(open_windows: &Vec<Window>) -> (r: Vec<MuteDirective>)
    ensures
        relaxes_exactly(r@, window_pids(open_windows@)),
{
    let pids = distinct_pids(open_windows);
    let mut directives: Vec<MuteDirective> = Vec::new();
    let mut k: usize = 0;
    while k < pids.len()
        invariant
            k <= pids@.len(),
            directives@.len() == k,
            forall|i: int| 0 <= i < k ==> #[trigger] directives@[i] == MuteDirective::Unmute(pids@[i], false),
        decreases pids.len() - k,
    {
        directives.push(MuteDirective::Unmute(pids[k], false));
        k = k + 1;
    }
    let ghost ds = directives@;
    assert forall|i: int|
        0 <= i < ds.len() implies (#[trigger] ds[i]) == MuteDirective::Unmute(directive_pid(ds[i]), false)
            && window_pids(open_windows@).contains(directive_pid(ds[i])) by {
        assert(pids@.contains(pids@[i]));
    }
    assert forall|p: u32| window_pids(open_windows@).contains(p) implies exists|i: int|
        0 <= i < ds.len() && #[trigger] ds[i] == MuteDirective::Unmute(p, false) by {
        assert(pids@.contains(p));
        let i = choose|i: int| 0 <= i < pids@.len() && pids@[i] == p;
        assert(ds[i] == MuteDirective::Unmute(p, false));
    }
    assert forall|i: int, j: int| 0 <= i < j < ds.len() implies directive_pid(#[trigger] ds[i])
        < directive_pid(#[trigger] ds[j]) by {
        assert(ds[i] == MuteDirective::Unmute(pids@[i], false));
        assert(ds[j] == MuteDirective::Unmute(pids@[j], false));
    }
    directives
}

/// The foreground window after a run of window changes, each resolved or not.
pub open spec fn foreground_after(fg: Option<WindowView>, resolved: Seq<Option<WindowView>>) -> Option<
    WindowView,
>
    decreases resolved.len(),
{
    if resolved.len() == 0 {
        fg
    } else {
        window_step(foreground_after(fg, resolved.drop_last()), resolved.last())
    }
}

/// After any run of window changes the core holds at most one foreground
/// window: the most recently resolved one, or the one it held before if none
/// resolved.
pub proof fn lemma_foreground_is_last_resolved(
    fg: Option<WindowView>,
    resolved: Seq<Option<WindowView>>,
)
    ensures
        (forall|i: int| 0 <= i < resolved.len() ==> (#[trigger] resolved[i]) is None)
            ==> foreground_after(fg, resolved) == fg,
        forall|i: int|
            0 <= i < resolved.len() && (#[trigger] resolved[i]) is Some && (forall|j: int|
                i < j < resolved.len() ==> (#[trigger] resolved[j]) is None) ==> foreground_after(
                fg,
                resolved,
            ) == resolved[i],
    decreases resolved.len(),
{
    if resolved.len() > 0 {
        let prev = resolved.drop_last();
        lemma_foreground_is_last_resolved(fg, prev);
        let n = resolved.len() - 1;
        if (forall|i: int| 0 <= i < resolved.len() ==> (#[trigger] resolved[i]) is None) {
            assert forall|i: int| 0 <= i < prev.len() implies (#[trigger] prev[i]) is None by {
                assert(resolved[i] is None);
            }
            assert(resolved[n] is None);
        }
        assert forall|i: int|
            0 <= i < resolved.len() && (#[trigger] resolved[i]) is Some && (forall|j: int|
                i < j < resolved.len() ==> (#[trigger] resolved[j]) is None) implies foreground_after(
            fg,
            resolved,
        ) == resolved[i] by {
            if i < n {
                assert(resolved[n] is None);
                assert(prev[i] == resolved[i]);
                assert forall|j: int| i < j < prev.len() implies (#[trigger] prev[j]) is None by {
                    assert(resolved[j] is None);
                }
            }
        }
    }
}

/// A change between two managed programs in different processes, while
/// muting is on, mutes the old process and then unmutes the new one with the
/// debounce: exactly these two directives, in this order.
pub proof fn lemma_managed_switch_pairs(c: ConfigView, old: WindowView, new: WindowView)
    requires
        c.enabled,
        is_managed_in(c, old.program_path),
        is_managed_in(c, new.program_path),
        old.pid != new.pid,
    ensures
        window_directives(c, Some(old), new) == seq![
            MuteDirective::Mute(old.pid),
            MuteDirective::Unmute(new.pid, true),
        ],
{
    assert(window_directives(c, Some(old), new) =~= seq![
        MuteDirective::Mute(old.pid),
        MuteDirective::Unmute(new.pid, true),
    ]);
}

/// When the focus moves to another window of the same process, nothing is
/// muted or unmuted, whatever is managed.
pub proof fn lemma_same_process_no_directive(c: ConfigView, old: WindowView, new: WindowView)
    requires
        old.pid == new.pid,
    ensures
        window_directives(c, Some(old), new) == Seq::<MuteDirective>::empty(),
{
}

impl AnnieCore {
    pub fn new(config: AnnieConfig) -> (r: AnnieCore)
        ensures
            r@ == (CoreView { config: config@, foreground_window: None }),
    {
        AnnieCore { config, foreground_window: None }
    }

    pub fn config(&self) -> (r: &AnnieConfig)
        ensures
            r@ == self@.config,
    {
        &self.config
    }

    pub fn foreground_window(&self) -> (r: &Option<Window>)
        ensures
            window_option_view(*r) == self@.foreground_window,
    {
        &self.foreground_window
    }

    /// Whether `program_path` names a managed program.
    pub fn is_managed(&self, program_path: &ProgramPath) -> (r: bool)
        ensures
            r == is_managed_in(self@.config, program_path@),
    {
        self.config.is_managed(program_path)
    }

    /// A window change: `resolved` is the window the new foreground handle
    /// resolved to, or `None` where it did not resolve, which changes
    /// nothing.
    pub fn handle_new_window(&mut self, resolved: Option<Window>) -> (r: CoreOutcome)
        ensures
            final(self)@.config == old(self)@.config,
            final(self)@.foreground_window == window_step(
                old(self)@.foreground_window,
                window_option_view(resolved),
            ),
            !r.persist,
            resolved is None ==> r.directives@ == Seq::<MuteDirective>::empty()
                && r.tray_event is None,
            resolved matches Some(w) ==> r.directives@ == window_directives(
                old(self)@.config,
                old(self)@.foreground_window,
                w@,
            ),
            resolved matches Some(w) ==> (announces_recent(old(self)@.foreground_window, w@) ==> (
            r.tray_event matches Some(TrayEvent::AddRecentApp(p, m)) && p@ == w.program_path@ && m
                == is_managed_in(old(self)@.config, w.program_path@))),
            resolved matches Some(w) ==> (!announces_recent(old(self)@.foreground_window, w@)
                ==> r.tray_event is None),
    {
        let new = match resolved {
            Some(w) => w,
            None => {
                return CoreOutcome { directives: Vec::new(), tray_event: None, persist: false };
            },
        };
        let managed_new = self.config.is_managed(&new.program_path);
        let (switches, managed_old, old_pid, same_path) = match &self.foreground_window {
            Some(o) => (
                o.pid != new.pid,
                self.config.is_managed(&o.program_path),
                o.pid,
                o.program_path.same_program(&new.program_path),
            ),
            None => (true, false, 0, false),
        };
        let mut directives: Vec<MuteDirective> = Vec::new();
        if self.config.enabled && switches {
            if managed_old {
                directives.push(MuteDirective::Mute(old_pid));
            }
            if managed_new {
                directives.push(MuteDirective::Unmute(new.pid, true));
            }
        }
        let ghost old_view = self@;
        assert(directives@ =~= window_directives(old_view.config, old_view.foreground_window, new@));
        let tray_event = if !starts_with(new.program_path.as_str(), SYSTEM_DIR) && !same_path {
            Some(TrayEvent::AddRecentApp(new.program_path.duplicate(), managed_new))
        } else {
            None
        };
        self.foreground_window = Some(new);
        CoreOutcome { directives, tray_event, persist: false }
    }

    /// Unmutes the foreground process and mutes every other process with an
    /// open window, in the order of `open_windows`.
    pub fn update_mute_status_all(&self, open_windows: &Vec<Window>) -> (r: Vec<MuteDirective>)
        ensures
            r@.len() == open_windows@.len(),
            forall|i: int|
                0 <= i < r@.len() ==> #[trigger] r@[i] == status_directive(
                    self@.foreground_window,
                    open_windows@[i].pid,
                ),
    {
        let foreground_pid: Option<u32> = match &self.foreground_window {
            Some(w) => Some(w.pid),
            None => None,
        };
        let mut directives: Vec<MuteDirective> = Vec::new();
        let mut i: usize = 0;
        while i < open_windows.len()
            invariant
                i <= open_windows@.len(),
                directives@.len() == i,
                foreground_pid == (match self@.foreground_window {
                    Some(w) => Some(w.pid),
                    None => None::<u32>,
                }),
                forall|k: int|
                    0 <= k < i ==> #[trigger] directives@[k] == status_directive(
                        self@.foreground_window,
                        open_windows@[k].pid,
                    ),
            decreases open_windows.len() - i,
        {
            let pid = open_windows[i].pid;
            if foreground_pid == Some(pid) {
                directives.push(MuteDirective::Unmute(pid, false));
            } else {
                directives.push(MuteDirective::Mute(pid));
            }
            i = i + 1;
        }
        directives
    }

    /// Turns muting on or off. A change is saved; turning on applies the
    /// policy to every open window, turning off unmutes every process with an
    /// open window, muted before or not.
    pub fn set_enabled_global(&mut self, enabled: bool, open_windows: &Vec<Window>) -> (r:
        CoreOutcome)
        ensures
            r.tray_event is None,
            enabled == old(self)@.config.enabled ==> final(self)@ == old(self)@
                && r.directives@ == Seq::<MuteDirective>::empty() && !r.persist,
            enabled != old(self)@.config.enabled ==> final(self)@ == (CoreView {
                config: ConfigView { enabled, ..old(self)@.config },
                ..old(self)@
            }) && r.persist,
            enabled && !old(self)@.config.enabled ==> r.directives@.len() == open_windows@.len()
                && forall|i: int|
                0 <= i < open_windows@.len() ==> #[trigger] r.directives@[i] == status_directive(
                    old(self)@.foreground_window,
                    open_windows@[i].pid,
                ),
            !enabled && old(self)@.config.enabled ==> relaxes_exactly(
                r.directives@,
                window_pids(open_windows@),
            ),
    {
        if enabled == self.config.enabled {
            return CoreOutcome { directives: Vec::new(), tray_event: None, persist: false };
        }
        self.config.enabled = enabled;
        let directives = if enabled {
            self.update_mute_status_all(open_windows)
        } else {
            force_unmute_all(open_windows)
        };
        CoreOutcome { directives, tray_event: None, persist: true }
    }

    /// Adds a program to the managed apps or removes it; nothing happens if
    /// that changes nothing. `matching_pids` are the processes running the
    /// program. Adding mutes each of them but the foreground process, which
    /// is unmuted; removing unmutes each of them, foreground or not.
    pub fn set_managed_app(
        &mut self,
        program_path: ProgramPath,
        managed: bool,
        matching_pids: &Vec<u32>,
    ) -> (r: CoreOutcome)
        ensures
            r.tray_event is None,
            final(self)@.foreground_window == old(self)@.foreground_window,
            final(self)@.config.enabled == old(self)@.config.enabled,
            final(self)@.config.max_recent_apps == old(self)@.config.max_recent_apps,
            managed == is_managed_in(old(self)@.config, program_path@) ==> final(self)@ == old(
                self,
            )@ && r.directives@ == Seq::<MuteDirective>::empty() && !r.persist,
            managed && !is_managed_in(old(self)@.config, program_path@) ==> r.persist
                && final(self)@.config.managed_apps.to_set()
                == old(self)@.config.managed_apps.to_set().insert(program_path@)
                && r.directives@.len() == matching_pids@.len() && forall|i: int|
                0 <= i < matching_pids@.len() ==> #[trigger] r.directives@[i] == status_directive(
                    old(self)@.foreground_window,
                    matching_pids@[i],
                ),
            !managed && is_managed_in(old(self)@.config, program_path@) ==> r.persist && (exists|
                i: int,
            |
                0 <= i < old(self)@.config.managed_apps.len() && same_program(
                    old(self)@.config.managed_apps[i],
                    program_path@,
                ) && final(self)@.config.managed_apps == old(self)@.config.managed_apps.remove(i))
                && r.directives@.len() == matching_pids@.len() && forall|i: int|
                0 <= i < matching_pids@.len() ==> #[trigger] r.directives@[i]
                    == MuteDirective::Unmute(matching_pids@[i], false),
            forall|q: Seq<char>|
                is_managed_in(final(self)@.config, q) == (if managed {
                    is_managed_in(old(self)@.config, q) || same_program(q, program_path@)
                } else {
                    is_managed_in(old(self)@.config, q) && !same_program(q, program_path@)
                }),
    {
        let ghost before = self@;
        if managed {
            if self.config.is_managed(&program_path) {
                proof {
                    assert forall|q: Seq<char>| is_managed_in(before.config, q) == (is_managed_in(before.config, q) || same_program(q, program_path@)) by {
                        if same_program(q, program_path@) {
                            let k = choose|k: int| 0 <= k < before.config.managed_apps.len() && same_program(before.config.managed_apps[k], program_path@);
                            assert(same_program(before.config.managed_apps[k], q));
                        }
                    }
                }
                return CoreOutcome { directives: Vec::new(), tray_event: None, persist: false };
            }
            self.config.managed_apps.insert(program_path);
            let directives = self.update_mute_status_for(matching_pids);
            CoreOutcome { directives, tray_event: None, persist: true }
        } else {
            if !self.config.is_managed(&program_path) {
                proof {
                    assert forall|q: Seq<char>| is_managed_in(before.config, q) == (is_managed_in(before.config, q) && !same_program(q, program_path@)) by {
                        if is_managed_in(before.config, q) && same_program(q, program_path@) {
                            let k = choose|k: int| 0 <= k < before.config.managed_apps.len() && same_program(before.config.managed_apps[k], q);
                            assert(same_program(before.config.managed_apps[k], program_path@));
                        }
                    }
                }
                return CoreOutcome { directives: Vec::new(), tray_event: None, persist: false };
            }
            self.config.managed_apps.remove(&program_path);
            let mut directives: Vec<MuteDirective> = Vec::new();
            let mut i: usize = 0;
            while i < matching_pids.len()
                invariant
                    i <= matching_pids@.len(),
                    directives@.len() == i,
                    forall|k: int|
                        0 <= k < i ==> #[trigger] directives@[k] == MuteDirective::Unmute(
                            matching_pids@[k],
                            false,
                        ),
                decreases matching_pids.len() - i,
            {
                directives.push(MuteDirective::Unmute(matching_pids[i], false));
                i = i + 1;
            }
            CoreOutcome { directives, tray_event: None, persist: true }
        }
    }

    /// The directive of `status_directive` for each pid, in order.
    fn update_mute_status_for(&self, pids: &Vec<u32>) -> (r: Vec<MuteDirective>)
        ensures
            r@.len() == pids@.len(),
            forall|i: int|
                0 <= i < pids@.len() ==> #[trigger] r@[i] == status_directive(
                    self@.foreground_window,
                    pids@[i],
                ),
    {
        let foreground_pid: Option<u32> = match &self.foreground_window {
            Some(w) => Some(w.pid),
            None => None,
        };
        let mut directives: Vec<MuteDirective> = Vec::new();
        let mut i: usize = 0;
        while i < pids.len()
            invariant
                i <= pids@.len(),
                directives@.len() == i,
                foreground_pid == (match self@.foreground_window {
                    Some(w) => Some(w.pid),
                    None => None::<u32>,
                }),
                forall|k: int|
                    0 <= k < i ==> #[trigger] directives@[k] == status_directive(
                        self@.foreground_window,
                        pids@[k],
                    ),
            decreases pids.len() - i,
        {
            let pid = pids[i];
            if foreground_pid == Some(pid) {
                directives.push(MuteDirective::Unmute(pid, false));
            } else {
                directives.push(MuteDirective::Mute(pid));
            }
            i = i + 1;
        }
        directives
    }

    /// Replaces the policy with one loaded from the store: every process with
    /// an open window is unmuted, whatever the new policy says, and the tray
    /// receives the new policy.
    pub fn apply_loaded_config(&mut self, config: AnnieConfig, open_windows: &Vec<Window>) -> (r:
        CoreOutcome)
        ensures
            final(self)@ == (CoreView { config: config@, ..old(self)@ }),
            !r.persist,
            relaxes_exactly(r.directives@, window_pids(open_windows@)),
            r.tray_event matches Some(
                TrayEvent::UpdateFromConfig { enabled, managed_apps, max_recent_apps },
            ) && enabled == config.enabled && managed_apps@ == config.managed_apps@
                && max_recent_apps == config.max_recent_apps,
    {
        let event = TrayEvent::UpdateFromConfig {
            enabled: config.enabled,
            managed_apps: config.managed_apps.duplicate(),
            max_recent_apps: config.max_recent_apps,
        };
        self.config = config;
        let directives = force_unmute_all(open_windows);
        CoreOutcome { directives, tray_event: Some(event), persist: false }
    }
}

} // verus!
