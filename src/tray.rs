//! The tray's state: the global switch and the list of recently focused
//! programs, updated by menu actions and by the core's events.

use std::collections::VecDeque;
use vstd::prelude::*;
use crate::config::{ManagedApps, has_program};
use crate::controller::CoreMessage;
use crate::path::{ProgramPath, same_program};

verus! {

/// Events handled by the tray: menu actions, and what the core publishes.
pub enum TrayEvent {
    ToggleGlobal,
    ToggleProgram(usize),
    OpenConfig,
    ReloadConfig,
    ForceUnmuteAll,
    ShowAbout,
    Exit,
    AddRecentApp(ProgramPath, bool),
    UpdateFromConfig { enabled: bool, managed_apps: ManagedApps, max_recent_apps: usize },
}

/// What the tray is to do after an event: send a message to the core, redraw
/// its menu, show the about box, leave its event loop.
pub struct TrayAction {
    pub message: Option<CoreMessage>,
    pub refresh: bool,
    pub show_about: bool,
    pub exit: bool,
}

pub open spec fn recent_view(s: Seq<(ProgramPath, bool)>) -> Seq<(Seq<char>, bool)> {
    s.map_values(|e: (ProgramPath, bool)| (e.0@, e.1))
}

pub struct TrayStateView {
    pub enabled: bool,
    pub recent_apps: Seq<(Seq<char>, bool)>,
    pub max_recent_apps: usize,
}

/// The menu's state: whether muting is on, the recent programs, most recent
/// first, each with whether it is managed, and how many are listed at most;
/// no program is listed twice.
pub struct TrayState {
    enabled: bool,
    recent_apps: VecDeque<(ProgramPath, bool)>,
    max_recent_apps: usize,
}

/// No two entries name the same program.
pub open spec fn distinct_programs(s: Seq<(Seq<char>, bool)>) -> bool {
    forall|i: int, j: int|
        0 <= i < j < s.len() ==> !same_program(#[trigger] s[i].0, #[trigger] s[j].0)
}

proof fn lemma_distinct_prefix(s: Seq<(Seq<char>, bool)>, k: int)
    requires
        distinct_programs(s),
        0 <= k <= s.len(),
    ensures
        distinct_programs(s.take(k)),
{
    assert forall|i: int, j: int| 0 <= i < j < s.take(k).len() implies !same_program(
        #[trigger] s.take(k)[i].0,
        #[trigger] s.take(k)[j].0,
    ) by {
        assert(s.take(k)[i] == s[i] && s.take(k)[j] == s[j]);
    }
}

proof fn lemma_distinct_remove(s: Seq<(Seq<char>, bool)>, k: int)
    requires
        distinct_programs(s),
        0 <= k < s.len(),
    ensures
        distinct_programs(s.remove(k)),
{
    let t = s.remove(k);
    assert forall|i: int, j: int| 0 <= i < j < t.len() implies !same_program(
        #[trigger] t[i].0,
        #[trigger] t[j].0,
    ) by {
        let si = if i < k { i } else { i + 1 };
        let sj = if j < k { j } else { j + 1 };
        assert(t[i] == s[si] && t[j] == s[sj]);
    }
}

proof fn lemma_distinct_cons(e: (Seq<char>, bool), s: Seq<(Seq<char>, bool)>)
    requires
        distinct_programs(s),
        forall|a: int| 0 <= a < s.len() ==> !same_program(#[trigger] s[a].0, e.0),
    ensures
        distinct_programs(seq![e] + s),
{
    let t = seq![e] + s;
    assert forall|i: int, j: int| 0 <= i < j < t.len() implies !same_program(
        #[trigger] t[i].0,
        #[trigger] t[j].0,
    ) by {
        assert(t[j] == s[j - 1]);
        if i > 0 {
            assert(t[i] == s[i - 1]);
        } else {
            assert(!same_program(s[j - 1].0, e.0));
        }
    }
}

impl View for TrayState {
    type V = TrayStateView;

    closed spec fn view(&self) -> TrayStateView {
        TrayStateView {
            enabled: self.enabled,
            recent_apps: recent_view(self.recent_apps@),
            max_recent_apps: self.max_recent_apps,
        }
    }
}

/// Whether `i` is the first entry of `s` naming the same program as `p`.
pub open spec fn first_entry_of(s: Seq<(Seq<char>, bool)>, p: Seq<char>, i: int) -> bool {
    &&& 0 <= i < s.len()
    &&& same_program(s[i].0, p)
    &&& forall|j: int| 0 <= j < i ==> !same_program(#[trigger] s[j].0, p)
}

/// The recent list after `p` was focused: its earlier entry, if any, leaves,
/// it comes first, and the list is cut back to `max` entries.
pub open spec fn add_recent(
    s: Seq<(Seq<char>, bool)>,
    p: Seq<char>,
    managed: bool,
    max: usize,
) -> Seq<(Seq<char>, bool)> {
    let rest = if exists|i: int| first_entry_of(s, p, i) {
        s.remove(choose|i: int| first_entry_of(s, p, i))
    } else {
        s
    };
    let pushed = seq![(p, managed)] + rest;
    if pushed.len() > max {
        pushed.drop_last()
    } else {
        pushed
    }
}

/// The recent list under a newly loaded policy: cut back to `max` entries,
/// each marked managed or not as the policy says.
pub open spec fn refresh_recent(
    s: Seq<(Seq<char>, bool)>,
    managed: Seq<Seq<char>>,
    max: usize,
) -> Seq<(Seq<char>, bool)> {
    let kept = if s.len() > max {
        s.take(max as int)
    } else {
        s
    };
    kept.map_values(|e: (Seq<char>, bool)| (e.0, has_program(managed, e.0)))
}

impl TrayState {
    #[verifier::type_invariant]
    spec fn distinct(&self) -> bool {
        distinct_programs(recent_view(self.recent_apps@))
    }

    /// The state before the core's first update: muting on, no recent apps.
    pub fn new() -> (r: TrayState)
        ensures
            r@ == (TrayStateView {
                enabled: true,
                recent_apps: Seq::<(Seq<char>, bool)>::empty(),
                max_recent_apps: 0,
            }),
    {
        let r = TrayState { enabled: true, recent_apps: VecDeque::new(), max_recent_apps: 0 };
        assert(r@.recent_apps =~= Seq::<(Seq<char>, bool)>::empty());
        r
    }

    pub fn enabled(&self) -> (r: bool)
        ensures
            r == self@.enabled,
    {
        self.enabled
    }

    pub fn max_recent_apps(&self) -> (r: usize)
        ensures
            r == self@.max_recent_apps,
    {
        self.max_recent_apps
    }

    pub fn recent_apps(&self) -> (r: &VecDeque<(ProgramPath, bool)>)
        ensures
            recent_view(r@) == self@.recent_apps,
    {
        &self.recent_apps
    }

    /// Every value lists each program at most once.
    pub fn show_distinct(&self)
        ensures
            distinct_programs(self@.recent_apps),
    {
        proof {
            use_type_invariant(self);
        }
    }

    /// Appends copies of the entries at `from..to` to `out`.
    fn copy_entries(&self, from: usize, to: usize, out: &mut VecDeque<(ProgramPath, bool)>)
        requires
            from <= to <= self@.recent_apps.len(),
        ensures
            recent_view(final(out)@) == recent_view(old(out)@) + self@.recent_apps.subrange(
                from as int,
                to as int,
            ),
    {
        let ghost start = recent_view(out@);
        let mut k: usize = from;
        while k < to
            invariant
                from <= k <= to,
                to <= self@.recent_apps.len(),
                self@.recent_apps.len() == self.recent_apps@.len(),
                recent_view(out@) == start + self@.recent_apps.subrange(from as int, k as int),
            decreases to - k,
        {
            let entry = (self.recent_apps[k].0.duplicate(), self.recent_apps[k].1);
            let ghost before = out@;
            out.push_back(entry);
            assert(recent_view(out@) =~= recent_view(before).push(self@.recent_apps[k as int]));
            assert(recent_view(out@) =~= start + self@.recent_apps.subrange(from as int, k + 1));
            k = k + 1;
        }
    }

    fn add_recent_app(&mut self, program_path: ProgramPath, managed: bool)
        ensures
            final(self)@ == (TrayStateView {
                recent_apps: add_recent(
                    old(self)@.recent_apps,
                    program_path@,
                    managed,
                    old(self)@.max_recent_apps,
                ),
                ..old(self)@
            }),
    {
        proof {
            use_type_invariant(&*self);
        }
        let ghost s = self@.recent_apps;
        let ghost p = program_path@;
        let mut i: usize = 0;
        let mut found = false;
        while i < self.recent_apps.len()
            invariant_except_break
                i <= self.recent_apps@.len(),
                s == recent_view(self.recent_apps@),
                s.len() == self.recent_apps@.len(),
                p == program_path@,
                forall|j: int| 0 <= j < i ==> !same_program(#[trigger] s[j].0, p),
                !found,
            ensures
                i <= s.len(),
                forall|j: int| 0 <= j < i ==> !same_program(#[trigger] s[j].0, p),
                found ==> i < s.len() && same_program(s[i as int].0, p),
                !found ==> i == s.len(),
            decreases self.recent_apps.len() - i,
        {
            if self.recent_apps[i].0.same_program(&program_path) {
                found = true;
                break;
            }
            i = i + 1;
        }
        let n = self.recent_apps.len();
        let mut v: VecDeque<(ProgramPath, bool)> = VecDeque::new();
        v.push_back((program_path, managed));
        assert(recent_view(v@) =~= seq![(p, managed)]);
        let ghost rest;
        if found {
            assert(first_entry_of(s, p, i as int));
            proof {
                let c = choose|c: int| first_entry_of(s, p, c);
                if c < i {
                    assert(!same_program(s[c].0, p));
                }
                if c > i {
                    assert(!same_program(s[i as int].0, p));
                }
                assert(c == i);
                rest = s.remove(i as int);
            }
            self.copy_entries(0, i, &mut v);
            self.copy_entries(i + 1, n, &mut v);
            assert(recent_view(v@) =~= seq![(p, managed)] + rest);
            proof {
                lemma_distinct_remove(s, i as int);
                assert forall|a: int| 0 <= a < rest.len() implies !same_program(
                    #[trigger] rest[a].0,
                    p,
                ) by {
                    if a < i {
                        assert(rest[a] == s[a]);
                    } else {
                        assert(rest[a] == s[a + 1]);
                        assert(!same_program(s[i as int].0, s[a + 1].0));
                    }
                }
            }
        } else {
            proof {
                assert(!exists|c: int| first_entry_of(s, p, c));
                rest = s;
            }
            self.copy_entries(0, n, &mut v);
            assert(recent_view(v@) =~= seq![(p, managed)] + rest);
        }
        proof {
            lemma_distinct_cons((p, managed), rest);
        }
        if v.len() > self.max_recent_apps {
            let ghost before = recent_view(v@);
            v.pop_back();
            assert(recent_view(v@) =~= before.drop_last());
            proof {
                lemma_distinct_prefix(before, before.len() - 1);
                assert(before.drop_last() =~= before.take(before.len() - 1));
            }
        }
        *self = TrayState {
            enabled: self.enabled,
            recent_apps: v,
            max_recent_apps: self.max_recent_apps,
        };
    }

    fn refresh_from_config(
        &mut self,
        enabled: bool,
        managed_apps: &ManagedApps,
        max_recent_apps: usize,
    )
        ensures
            final(self)@ == (TrayStateView {
                enabled,
                recent_apps: refresh_recent(old(self)@.recent_apps, managed_apps@, max_recent_apps),
                max_recent_apps,
            }),
    {
        proof {
            use_type_invariant(&*self);
        }
        let ghost s = self@.recent_apps;
        let keep = if self.recent_apps.len() > max_recent_apps {
            max_recent_apps
        } else {
            self.recent_apps.len()
        };
        let ghost kept = s.take(keep as int);
        assert(kept =~= (if s.len() > max_recent_apps {
            s.take(max_recent_apps as int)
        } else {
            s
        }));
        let mut updated: VecDeque<(ProgramPath, bool)> = VecDeque::new();
        let mut i: usize = 0;
        while i < keep
            invariant
                i <= keep,
                keep <= self.recent_apps@.len(),
                s == self@.recent_apps,
                kept == s.take(keep as int),
                recent_view(updated@) == kept.take(i as int).map_values(
                    |e: (Seq<char>, bool)| (e.0, has_program(managed_apps@, e.0)),
                ),
            decreases keep - i,
        {
            let path = self.recent_apps[i].0.duplicate();
            let managed = managed_apps.contains(&path);
            let ghost before = updated@;
            updated.push_back((path, managed));
            assert(recent_view(updated@) =~= kept.take(i + 1).map_values(
                |e: (Seq<char>, bool)| (e.0, has_program(managed_apps@, e.0)),
            )) by {
                assert(recent_view(updated@) =~= recent_view(before).push((kept[i as int].0, managed)));
            }
            i = i + 1;
        }
        assert(kept.take(i as int) =~= kept);
        proof {
            lemma_distinct_prefix(s, keep as int);
            let u = recent_view(updated@);
            assert forall|a: int, b: int| 0 <= a < b < u.len() implies !same_program(
                #[trigger] u[a].0,
                #[trigger] u[b].0,
            ) by {
                assert(u[a].0 == kept[a].0 && u[b].0 == kept[b].0);
            }
        }
        *self = TrayState { enabled, recent_apps: updated, max_recent_apps };
    }

    /// Handles one event of the tray's loop, updating the menu's state.
    /// `ToggleProgram` refers to an entry of the recent list.
    pub fn handle_event(&mut self, event: TrayEvent) -> (r: TrayAction)
        requires
            event matches TrayEvent::ToggleProgram(i) ==> i < old(self)@.recent_apps.len(),
        ensures
            distinct_programs(final(self)@.recent_apps),
            event is ToggleGlobal ==> final(self)@ == (TrayStateView {
                enabled: !old(self)@.enabled,
                ..old(self)@
            }) && r.refresh && !r.exit && !r.show_about && (r.message matches Some(
                CoreMessage::SetEnabledGlobal(e),
            ) && e == !old(self)@.enabled),
            event matches TrayEvent::ToggleProgram(i) ==> final(self)@ == (TrayStateView {
                recent_apps: old(self)@.recent_apps.update(
                    i as int,
                    (old(self)@.recent_apps[i as int].0, !old(self)@.recent_apps[i as int].1),
                ),
                ..old(self)@
            }) && r.refresh && !r.exit && !r.show_about && (r.message matches Some(
                CoreMessage::SetEnabledApp(p, m),
            ) && p@ == old(self)@.recent_apps[i as int].0 && m == !old(self)@.recent_apps[i as int].1),
            event matches TrayEvent::AddRecentApp(p, m) ==> final(self)@ == (TrayStateView {
                recent_apps: add_recent(old(self)@.recent_apps, p@, m, old(self)@.max_recent_apps),
                ..old(self)@
            }) && r.refresh && !r.exit && !r.show_about && r.message is None,
            event matches TrayEvent::UpdateFromConfig { enabled, managed_apps, max_recent_apps }
                ==> final(self)@ == (TrayStateView {
                enabled,
                recent_apps: refresh_recent(
                    old(self)@.recent_apps,
                    managed_apps@,
                    max_recent_apps,
                ),
                max_recent_apps,
            }) && r.refresh && !r.exit && !r.show_about && r.message is None,
            event is OpenConfig ==> final(self)@ == old(self)@ && !r.refresh && !r.exit
                && !r.show_about && r.message matches Some(CoreMessage::OpenConfig),
            event is ReloadConfig ==> final(self)@ == old(self)@ && !r.refresh && !r.exit
                && !r.show_about && r.message matches Some(CoreMessage::ReloadConfig),
            event is ForceUnmuteAll ==> final(self)@ == old(self)@ && !r.refresh && !r.exit
                && !r.show_about && r.message matches Some(CoreMessage::ForceUnmuteAll),
            event is ShowAbout ==> final(self)@ == old(self)@ && !r.refresh && !r.exit
                && r.show_about && r.message is None,
            event is Exit ==> final(self)@ == old(self)@ && !r.refresh && r.exit && !r.show_about
                && r.message matches Some(CoreMessage::ExitApplication),
    {
        let action = self.apply_event(event);
        self.show_distinct();
        action
    }

    fn apply_event(&mut self, event: TrayEvent) -> (r: TrayAction)
        requires
            event matches TrayEvent::ToggleProgram(i) ==> i < old(self)@.recent_apps.len(),
        ensures
            event is ToggleGlobal ==> final(self)@ == (TrayStateView {
                enabled: !old(self)@.enabled,
                ..old(self)@
            }) && r.refresh && !r.exit && !r.show_about && (r.message matches Some(
                CoreMessage::SetEnabledGlobal(e),
            ) && e == !old(self)@.enabled),
            event matches TrayEvent::ToggleProgram(i) ==> final(self)@ == (TrayStateView {
                recent_apps: old(self)@.recent_apps.update(
                    i as int,
                    (old(self)@.recent_apps[i as int].0, !old(self)@.recent_apps[i as int].1),
                ),
                ..old(self)@
            }) && r.refresh && !r.exit && !r.show_about && (r.message matches Some(
                CoreMessage::SetEnabledApp(p, m),
            ) && p@ == old(self)@.recent_apps[i as int].0 && m == !old(self)@.recent_apps[i as int].1),
            event matches TrayEvent::AddRecentApp(p, m) ==> final(self)@ == (TrayStateView {
                recent_apps: add_recent(old(self)@.recent_apps, p@, m, old(self)@.max_recent_apps),
                ..old(self)@
            }) && r.refresh && !r.exit && !r.show_about && r.message is None,
            event matches TrayEvent::UpdateFromConfig { enabled, managed_apps, max_recent_apps }
                ==> final(self)@ == (TrayStateView {
                enabled,
                recent_apps: refresh_recent(
                    old(self)@.recent_apps,
                    managed_apps@,
                    max_recent_apps,
                ),
                max_recent_apps,
            }) && r.refresh && !r.exit && !r.show_about && r.message is None,
            event is OpenConfig ==> final(self)@ == old(self)@ && !r.refresh && !r.exit
                && !r.show_about && r.message matches Some(CoreMessage::OpenConfig),
            event is ReloadConfig ==> final(self)@ == old(self)@ && !r.refresh && !r.exit
                && !r.show_about && r.message matches Some(CoreMessage::ReloadConfig),
            event is ForceUnmuteAll ==> final(self)@ == old(self)@ && !r.refresh && !r.exit
                && !r.show_about && r.message matches Some(CoreMessage::ForceUnmuteAll),
            event is ShowAbout ==> final(self)@ == old(self)@ && !r.refresh && !r.exit
                && r.show_about && r.message is None,
            event is Exit ==> final(self)@ == old(self)@ && !r.refresh && r.exit && !r.show_about
                && r.message matches Some(CoreMessage::ExitApplication),
    {
        match event {
            TrayEvent::ToggleGlobal => {
                proof {
                    use_type_invariant(&*self);
                }
                self.enabled = !self.enabled;
                TrayAction {
                    message: Some(CoreMessage::SetEnabledGlobal(self.enabled)),
                    refresh: true,
                    show_about: false,
                    exit: false,
                }
            },
            TrayEvent::UpdateFromConfig { enabled, managed_apps, max_recent_apps } => {
                self.refresh_from_config(enabled, &managed_apps, max_recent_apps);
                TrayAction { message: None, refresh: true, show_about: false, exit: false }
            },
            TrayEvent::ToggleProgram(index) => {
                proof {
                    use_type_invariant(&*self);
                }
                let ghost s = self@.recent_apps;
                let path = self.recent_apps[index].0.duplicate();
                let active = !self.recent_apps[index].1;
                let n = self.recent_apps.len();
                let mut v: VecDeque<(ProgramPath, bool)> = VecDeque::new();
                self.copy_entries(0, index, &mut v);
                let ghost before = recent_view(v@);
                v.push_back((self.recent_apps[index].0.duplicate(), active));
                assert(recent_view(v@) =~= before.push((s[index as int].0, active)));
                self.copy_entries(index + 1, n, &mut v);
                let ghost u = recent_view(v@);
                assert(u =~= s.update(index as int, (s[index as int].0, active)));
                assert forall|a: int, b: int| 0 <= a < b < u.len() implies !same_program(
                    #[trigger] u[a].0,
                    #[trigger] u[b].0,
                ) by {
                    assert(u[a].0 == s[a].0 && u[b].0 == s[b].0);
                }
                *self = TrayState {
                    enabled: self.enabled,
                    recent_apps: v,
                    max_recent_apps: self.max_recent_apps,
                };
                TrayAction {
                    message: Some(CoreMessage::SetEnabledApp(path, active)),
                    refresh: true,
                    show_about: false,
                    exit: false,
                }
            },
            TrayEvent::AddRecentApp(program_path, managed) => {
                self.add_recent_app(program_path, managed);
                TrayAction { message: None, refresh: true, show_about: false, exit: false }
            },
            TrayEvent::OpenConfig => TrayAction {
                message: Some(CoreMessage::OpenConfig),
                refresh: false,
                show_about: false,
                exit: false,
            },
            TrayEvent::ReloadConfig => TrayAction {
                message: Some(CoreMessage::ReloadConfig),
                refresh: false,
                show_about: false,
                exit: false,
            },
            TrayEvent::ForceUnmuteAll => TrayAction {
                message: Some(CoreMessage::ForceUnmuteAll),
                refresh: false,
                show_about: false,
                exit: false,
            },
            TrayEvent::ShowAbout => TrayAction {
                message: None,
                refresh: false,
                show_about: true,
                exit: false,
            },
            TrayEvent::Exit => TrayAction {
                message: Some(CoreMessage::ExitApplication),
                refresh: false,
                show_about: false,
                exit: true,
            },
        }
    }
}

pub open spec fn is_separator(c: char) -> bool {
    c == '\\' || c == '/'
}

pub open spec fn is_drive_letter(c: char) -> bool {
    ('a' <= c && c <= 'z') || ('A' <= c && c <= 'Z')
}

/// The length of a leading drive designator such as `C:`, or 0.
pub open spec fn drive_prefix_len(path: Seq<char>) -> int {
    if path.len() >= 2 && path[1] == ':' && is_drive_letter(path[0]) {
        2
    } else {
        0
    }
}

/// What follows the last separator of `p`.
pub open spec fn last_component(p: Seq<char>) -> Seq<char>
    decreases p.len(),
{
    if p.len() == 0 || is_separator(p.last()) {
        Seq::empty()
    } else {
        last_component(p.drop_last()).push(p.last())
    }
}

/// The last component of `p` that is neither empty nor `.`; empty if none.
pub open spec fn last_name(p: Seq<char>) -> Seq<char>
    decreases p.len(),
{
    let c = last_component(p);
    if c.len() == 0 || c == seq!['.'] {
        if c.len() >= p.len() {
            Seq::empty()
        } else {
            last_name(p.take(p.len() - c.len() - 1))
        }
    } else {
        c
    }
}

/// The file name of a Windows path: its last component after the drive
/// designator, with separators `\\` and `/`, skipping empty and `.`
/// components, as `std::path::Path` reads such a path.
pub open spec fn file_name_of(path: Seq<char>) -> Seq<char> {
    last_name(path.skip(drive_prefix_len(path)))
}

/// The index of the last `.` of `name`, or -1.
pub open spec fn last_dot(name: Seq<char>) -> int
    decreases name.len(),
{
    if name.len() == 0 {
        -1
    } else if name.last() == '.' {
        name.len() - 1
    } else {
        last_dot(name.drop_last())
    }
}

/// Whether the path has a file name to take a stem from: one that is not
/// `..`.
pub open spec fn has_file_stem(path: Seq<char>) -> bool {
    let name = file_name_of(path);
    name.len() > 0 && name != seq!['.', '.']
}

/// Where the last component of `s@[lo..end]` starts.
fn component_start(s: &str, lo: usize, end: usize) -> (r: usize)
    requires
        lo <= end <= s@.len(),
    ensures
        lo <= r <= end,
        last_component(s@.subrange(lo as int, end as int)) == s@.subrange(r as int, end as int),
        r > lo ==> is_separator(s@[r - 1]),
{
    let ghost path = s@;
    let ghost p = path.subrange(lo as int, end as int);
    let mut j: usize = end;
    assert(path.subrange(end as int, end as int) =~= Seq::<char>::empty());
    assert(path.subrange(lo as int, end as int) =~= p);
    while j > lo
        invariant_except_break
            lo <= j <= end,
            end <= path.len(),
            path == s@,
            p == path.subrange(lo as int, end as int),
            last_component(p) == last_component(path.subrange(lo as int, j as int)) + path.subrange(
                j as int,
                end as int,
            ),
        ensures
            lo <= j <= end,
            last_component(p) == path.subrange(j as int, end as int),
            j > lo ==> is_separator(path[j - 1]),
        decreases j,
    {
        let c = s.get_char(j - 1);
        let ghost q = path.subrange(lo as int, j as int);
        assert(q.drop_last() =~= path.subrange(lo as int, j - 1));
        assert(q.last() == c);
        if c == '\\' || c == '/' {
            assert(last_component(q) =~= Seq::<char>::empty());
            assert(last_component(p) =~= path.subrange(j as int, end as int));
            break;
        }
        assert(path.subrange(j - 1, end as int) =~= seq![c] + path.subrange(j as int, end as int));
        j = j - 1;
        assert(last_component(p) =~= last_component(path.subrange(lo as int, j as int))
            + path.subrange(j as int, end as int));
    }
    if j == lo {
        assert(path.subrange(lo as int, lo as int) =~= Seq::<char>::empty());
        assert(last_component(p) =~= path.subrange(lo as int, end as int));
    }
    j
}

/// Where the last name of `s@[lo..end]` lies, as in `last_name`.
fn name_bounds(s: &str, lo: usize, end: usize) -> (r: (usize, usize))
    requires
        lo <= end <= s@.len(),
    ensures
        lo <= r.0 <= r.1 <= end,
        s@.subrange(r.0 as int, r.1 as int) == last_name(s@.subrange(lo as int, end as int)),
    decreases end - lo,
{
    let ghost p = s@.subrange(lo as int, end as int);
    let start = component_start(s, lo, end);
    let ghost c = s@.subrange(start as int, end as int);
    let dot = end - start == 1 && s.get_char(start) == '.';
    if start == end || dot {
        assert(c.len() == 0 || c =~= seq!['.']);
        if start == lo {
            assert(s@.subrange(end as int, end as int) =~= Seq::<char>::empty());
            return (end, end);
        }
        assert(p.take(p.len() - c.len() - 1) =~= s@.subrange(lo as int, start - 1));
        return name_bounds(s, lo, start - 1);
    }
    if end - start == 1 {
        assert(c[0] != '.');
    }
    assert(c != seq!['.']) by {
        if c.len() == 1 {
            assert(c[0] != '.');
        }
    }
    (start, end)
}

/// Where the file name of `s` lies, as in `file_name_of`.
fn file_name_bounds(s: &str) -> (r: (usize, usize))
    ensures
        r.0 <= r.1 <= s@.len(),
        s@.subrange(r.0 as int, r.1 as int) == file_name_of(s@),
{
    let n = s.unicode_len();
    let mut lo: usize = 0;
    if n >= 2 && s.get_char(1) == ':' {
        let c = s.get_char(0);
        if ('a' <= c && c <= 'z') || ('A' <= c && c <= 'Z') {
            lo = 2;
        }
    }
    assert(lo == drive_prefix_len(s@));
    assert(s@.subrange(lo as int, n as int) =~= s@.skip(lo as int));
    name_bounds(s, lo, n)
}

/// Whether `app_path` has a file name that a program name can be taken from.
pub fn file_stem_exists(app_path: &str) -> (r: bool)
    ensures
        r == has_file_stem(app_path@),
{
    let (j, e) = file_name_bounds(app_path);
    let ghost name = app_path@.subrange(j as int, e as int);
    if e == j {
        return false;
    }
    if e - j == 2 {
        let first = app_path.get_char(j);
        let second = app_path.get_char(j + 1);
        assert(name[0] == first && name[1] == second);
        if first == '.' && second == '.' {
            assert(name =~= seq!['.', '.']);
            return false;
        }
        assert(name != seq!['.', '.']) by {
            assert(seq!['.', '.'][0] == '.' && seq!['.', '.'][1] == '.');
        }
    }
    true
}

/// The file name without its extension, the text from its last dot on; a
/// name whose only dot leads it keeps it.
pub open spec fn file_stem_of(path: Seq<char>) -> Seq<char> {
    let name = file_name_of(path);
    let d = last_dot(name);
    if d > 0 {
        name.take(d)
    } else {
        name
    }
}

/// The uppercase mapping of a character, as std computes it.
pub uninterp spec fn uppercase_of(c: char) -> Seq<char>;

/// Relies on `char::to_uppercase`: the uppercase mapping of a character, one
/// or more characters, depends on the character alone.
#[verifier::external_body]
fn char_to_uppercase(c: char) -> (r: String)
    ensures
        r@ == uppercase_of(c),
{
    c.to_uppercase().collect()
}

/// The name shown for a program: its file stem, with the first letter
/// uppercased unless it is uppercase already.
pub open spec fn app_name_of(path: Seq<char>) -> Seq<char> {
    let stem = file_stem_of(path);
    if uppercase_of(stem[0]) == seq![stem[0]] {
        stem
    } else {
        uppercase_of(stem[0]) + stem.drop_first()
    }
}

proof fn lemma_last_dot_bounds(name: Seq<char>)
    ensures
        -1 <= last_dot(name) < name.len(),
    decreases name.len(),
{
    if name.len() > 0 {
        lemma_last_dot_bounds(name.drop_last());
    }
}

/// The program's name for display, from its full path.
pub fn get_app_name(app_path: &str) -> (r: String)
    requires
        has_file_stem(app_path@),
    ensures
        r@ == app_name_of(app_path@),
{
    let ghost path = app_path@;
    let (j, e) = file_name_bounds(app_path);
    let ghost name = path.subrange(j as int, e as int);
    let m = e - j;
    let mut k: usize = m;
    assert(name.take(m as int) =~= name);
    while k > 0
        invariant_except_break
            k <= m,
            m == name.len(),
            j + m == e,
            e <= path.len(),
            path == app_path@,
            name == path.subrange(j as int, e as int),
            last_dot(name) == last_dot(name.take(k as int)),
        ensures
            k <= m,
            last_dot(name) == k - 1,
        decreases k,
    {
        let c = app_path.get_char(j + k - 1);
        assert(name.take(k as int).drop_last() =~= name.take(k - 1));
        assert(name.take(k as int).last() == c);
        if c == '.' {
            break;
        }
        k = k - 1;
    }
    proof {
        lemma_last_dot_bounds(name);
    }
    let stem_end = if k > 1 { j + k - 1 } else { e };
    let stem = app_path.substring_char(j, stem_end);
    assert(stem@ =~= file_stem_of(path));
    let first = app_path.get_char(j);
    assert(stem@[0] == first);
    let upper = char_to_uppercase(first);
    let stem_len = stem_end - j;
    if upper.unicode_len() == 1 && upper.as_str().get_char(0) == first {
        assert(upper@ =~= seq![first]);
        String::from_str(stem)
    } else {
        let rest = stem.substring_char(1, stem_len);
        assert(rest@ =~= stem@.drop_first());
        assert(upper@ != seq![first]);
        upper.concat(rest)
    }
}

/// The text of a program's entry in the recent-apps menu: `Name (path)`.
pub fn get_app_tray_text(app_path: &str) -> (r: String)
    requires
        has_file_stem(app_path@),
    ensures
        r@ == app_name_of(app_path@) + " ("@ + app_path@ + ")"@,
{
    let name = get_app_name(app_path);
    name.concat(" (").concat(app_path).concat(")")
}

} // verus!
