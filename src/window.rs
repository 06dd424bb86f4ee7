//! Top-level windows as the policy sees them, and the rules that decide which
//! windows count.

use vstd::prelude::*;
use crate::path::{ProgramPath, same_program};

verus! {

/// A window handle, the process that owns the window, and that process's
/// executable.
pub struct Window {
    pub hwnd: usize,
    pub pid: u32,
    pub program_path: ProgramPath,
}

pub struct WindowView {
    pub hwnd: usize,
    pub pid: u32,
    pub program_path: Seq<char>,
}

impl View for Window {
    type V = WindowView;

    open spec fn view(&self) -> WindowView {
        WindowView { hwnd: self.hwnd, pid: self.pid, program_path: self.program_path@ }
    }
}

pub open spec fn window_option_view(w: Option<Window>) -> Option<WindowView> {
    match w {
        Some(w) => Some(w@),
        None => None,
    }
}

impl Window {
    pub fn new(hwnd: usize, pid: u32, program_path: ProgramPath) -> (r: Window)
        ensures
            r@ == (WindowView { hwnd, pid, program_path: program_path@ }),
    {
        Window { hwnd, pid, program_path }
    }
}

/// Why a window handle does not resolve to a window the policy counts.
pub struct WindowError {
    hwnd: usize,
    reason: &'static str,
}

pub const REASON_OWNED: &'static str = "Window has an owner";

pub const REASON_NO_PID: &'static str = "Could not retrieve process ID window";

pub const REASON_INVISIBLE: &'static str = "Window is not visible";

pub const REASON_NO_TITLE: &'static str = "Window has empty title";

pub open spec fn hex_digit(d: nat) -> char {
    seq!['0', '1', '2', '3', '4', '5', '6', '7', '8', '9', 'a', 'b', 'c', 'd', 'e', 'f'][d as int]
}

/// The lowercase hexadecimal digits of `n`, without leading zeros.
pub open spec fn hex_text(n: nat) -> Seq<char>
    decreases n,
{
    if n < 16 {
        seq![hex_digit(n)]
    } else {
        hex_text(n / 16).push(hex_digit(n % 16))
    }
}

pub const HEX_DIGITS: &'static str = "0123456789abcdef";

fn write_hex(out: &mut String, n: usize)
    ensures
        final(out)@ == old(out)@ + hex_text(n as nat),
    decreases n,
{
    if n >= 16 {
        write_hex(out, n / 16);
    }
    let d = n % 16;
    proof {
        reveal_strlit("0123456789abcdef");
    }
    let digit = HEX_DIGITS.substring_char(d, d + 1);
    assert(digit@ =~= seq![hex_digit(d as nat)]);
    out.append(digit);
}

impl WindowError {
    pub fn new(hwnd: usize, reason: &'static str) -> (r: WindowError)
        ensures
            r.hwnd() == hwnd,
            r.reason()@ == reason@,
    {
        WindowError { hwnd, reason }
    }

    pub closed spec fn hwnd(&self) -> usize {
        self.hwnd
    }

    pub closed spec fn reason(&self) -> &'static str {
        self.reason
    }

    pub fn handle(&self) -> (r: usize)
        ensures
            r == self.hwnd(),
    {
        self.hwnd
    }

    pub fn reason_text(&self) -> (r: &'static str)
        ensures
            r@ == self.reason()@,
    {
        self.reason
    }

    /// The reason followed by the handle in hexadecimal: `reason: 0x1f`.
    pub fn message(&self) -> (r: String)
        ensures
            r@ == self.reason()@ + ": 0x"@ + hex_text(self.hwnd() as nat),
    {
        let mut out = String::from_str(self.reason);
        out.append(": 0x");
        write_hex(&mut out, self.hwnd);
        out
    }
}

/// Which window a handle must be to count: unowned, with a process, visible,
/// and titled. The checks go in that order; the first that fails is the
/// reason given.
pub fn check_window(hwnd: usize, has_owner: bool, pid: u32, visible: bool, title_len: i32) -> (r:
    Result<u32, WindowError>)
    ensures
        has_owner ==> (r matches Err(e) && e.reason()@ == REASON_OWNED@ && e.hwnd() == hwnd),
        !has_owner && pid == 0 ==> (r matches Err(e) && e.reason()@ == REASON_NO_PID@ && e.hwnd()
            == hwnd),
        !has_owner && pid != 0 && !visible ==> (r matches Err(e) && e.reason()@ == REASON_INVISIBLE@
            && e.hwnd() == hwnd),
        !has_owner && pid != 0 && visible && title_len == 0 ==> (r matches Err(e) && e.reason()@
            == REASON_NO_TITLE@ && e.hwnd() == hwnd),
        !has_owner && pid != 0 && visible && title_len != 0 ==> r == Ok::<u32, WindowError>(pid),
{
    if has_owner {
        return Err(WindowError::new(hwnd, REASON_OWNED));
    }
    if pid == 0 {
        return Err(WindowError::new(hwnd, REASON_NO_PID));
    }
    if !visible {
        return Err(WindowError::new(hwnd, REASON_INVISIBLE));
    }
    if title_len == 0 {
        return Err(WindowError::new(hwnd, REASON_NO_TITLE));
    }
    Ok(pid)
}

/// A running process and the full path of its executable.
pub struct ProcessEntry {
    pub pid: u32,
    pub path: String,
}

/// The pids among `entries` whose executable path names the same program as
/// `path`, in order.
pub open spec fn pids_with_path_spec(entries: Seq<ProcessEntry>, path: Seq<char>) -> Seq<u32>
    decreases entries.len(),
{
    if entries.len() == 0 {
        Seq::empty()
    } else {
        let prev = pids_with_path_spec(entries.drop_last(), path);
        if same_program(entries.last().path@, path) {
            prev.push(entries.last().pid)
        } else {
            prev
        }
    }
}

/// The processes running `program_path`: their paths name the same program,
/// whatever the letter case.
pub fn pids_with_path(entries: &Vec<ProcessEntry>, program_path: &ProgramPath) -> (r: Vec<u32>)
    ensures
        r@ == pids_with_path_spec(entries@, program_path@),
{
    let mut pids: Vec<u32> = Vec::new();
    let mut i: usize = 0;
    assert(entries@.subrange(0, 0) =~= Seq::<ProcessEntry>::empty());
    while i < entries.len()
        invariant
            i <= entries@.len(),
            pids@ == pids_with_path_spec(entries@.subrange(0, i as int), program_path@),
        decreases entries.len() - i,
    {
        assert(entries@.subrange(0, i + 1).drop_last() =~= entries@.subrange(0, i as int));
        let entry_path = ProgramPath::from_str(entries[i].path.as_str());
        if entry_path.same_program(program_path) {
            pids.push(entries[i].pid);
        }
        i = i + 1;
    }
    assert(entries@.subrange(0, i as int) =~= entries@);
    pids
}

} // verus!
