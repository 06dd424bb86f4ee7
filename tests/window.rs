use annie::error::AnnieError;
use annie::path::ProgramPath;
use annie::window::{check_window, pids_with_path, ProcessEntry, WindowError};

#[test]
fn window_checks_in_order() {
    assert_eq!(check_window(0x1f, true, 0, false, 0).unwrap_err().message(), "Window has an owner: 0x1f");
    assert_eq!(
        check_window(0x2a, false, 0, true, 3).unwrap_err().message(),
        "Could not retrieve process ID window: 0x2a"
    );
    assert_eq!(check_window(16, false, 4, false, 3).unwrap_err().message(), "Window is not visible: 0x10");
    assert_eq!(check_window(0, false, 4, true, 0).unwrap_err().message(), "Window has empty title: 0x0");
    assert_eq!(check_window(5, false, 4, true, 2).ok(), Some(4));
}

#[test]
fn window_error_parts() {
    let e = WindowError::new(0xdeadbeef, "Reason");
    assert_eq!(e.handle(), 0xdeadbeef);
    assert_eq!(e.reason_text(), "Reason");
    assert_eq!(e.message(), "Reason: 0xdeadbeef");
}

#[test]
fn pids_match_path_without_case() {
    let entries = vec![
        ProcessEntry { pid: 4, path: "C:\\a.exe".to_string() },
        ProcessEntry { pid: 8, path: "C:\\A.EXE".to_string() },
        ProcessEntry { pid: 9, path: "C:\\a.exe".to_string() },
        ProcessEntry { pid: 3, path: "C:\\b.exe".to_string() },
    ];
    assert_eq!(pids_with_path(&entries, &ProgramPath::new("C:\\a.exe".to_string())), vec![4, 8, 9]);
    assert!(pids_with_path(&entries, &ProgramPath::new("C:\\c.exe".to_string())).is_empty());
}

#[test]
fn program_paths_compare_without_case() {
    let a = ProgramPath::new("C:\\Program Files\\App.EXE".to_string());
    let b = ProgramPath::new("c:\\program files\\app.exe".to_string());
    let c = ProgramPath::new("C:\\Program Files\\Other.exe".to_string());
    assert!(a.same_program(&b));
    assert!(!a.same_program(&c));
    assert!(a.precedes(&c));
    assert!(!c.precedes(&b));
    assert!(!a.precedes(&b) && !b.precedes(&a));
    assert!(ProgramPath::new("Straße".to_string()).same_program(&ProgramPath::new("STRASSE".to_string())));
}

#[test]
fn annie_error_messages() {
    let load = AnnieError::LoadConfigError { source: "bad".to_string(), path: "C:\\c.toml".to_string() };
    assert_eq!(load.message(), "cannot read config file at C:\\c.toml: bad");
    let save = AnnieError::SaveConfigError { source: "full".to_string(), path: "p".to_string() };
    assert_eq!(save.message(), "cannot write config file to p: full");
    let show = AnnieError::ShowConfigError { source: "x".to_string(), path: "p".to_string() };
    assert_eq!(show.message(), "cannot show config file in explorer at p: x");
}
