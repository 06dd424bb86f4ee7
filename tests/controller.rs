use annie::config::AnnieConfig;
use annie::controller::{force_unmute_all, AnnieCore, MuteDirective};
use annie::path::ProgramPath;
use annie::tray::TrayEvent;
use annie::window::Window;

fn path(s: &str) -> ProgramPath {
    ProgramPath::new(s.to_string())
}

fn window(hwnd: usize, pid: u32, p: &str) -> Window {
    Window::new(hwnd, pid, path(p))
}

fn config_managing(paths: &[&str]) -> AnnieConfig {
    AnnieConfig::from_parts(true, paths.iter().map(|p| p.to_string()).collect(), 10)
}

const APP_A: &str = "C:\\Program Files\\A\\a.exe";
const APP_B: &str = "C:\\Program Files\\B\\b.exe";

#[test]
fn scenario_managed_a_unmanaged_b() {
    let mut core = AnnieCore::new(config_managing(&[APP_A]));
    let first = core.handle_new_window(Some(window(1, 100, APP_A)));
    assert_eq!(first.directives, vec![MuteDirective::Unmute(100, true)]);
    let to_b = core.handle_new_window(Some(window(2, 200, APP_B)));
    assert_eq!(to_b.directives, vec![MuteDirective::Mute(100)]);
    let back = core.handle_new_window(Some(window(1, 100, APP_A)));
    assert_eq!(back.directives, vec![MuteDirective::Unmute(100, true)]);
}

#[test]
fn foreground_is_last_resolved_window() {
    let mut core = AnnieCore::new(config_managing(&[]));
    core.handle_new_window(Some(window(1, 100, APP_A)));
    core.handle_new_window(Some(window(2, 200, APP_B)));
    let out = core.handle_new_window(None);
    assert!(out.directives.is_empty());
    assert!(out.tray_event.is_none());
    let fg = core.foreground_window().as_ref().unwrap();
    assert_eq!(fg.hwnd, 2);
    assert_eq!(fg.pid, 200);
    assert_eq!(fg.program_path.as_str(), APP_B);
}

#[test]
fn switch_between_managed_apps_mutes_then_unmutes() {
    let mut core = AnnieCore::new(config_managing(&[APP_A, APP_B]));
    core.handle_new_window(Some(window(1, 100, APP_A)));
    let out = core.handle_new_window(Some(window(2, 200, APP_B)));
    assert_eq!(
        out.directives,
        vec![MuteDirective::Mute(100), MuteDirective::Unmute(200, true)]
    );
}

#[test]
fn same_process_refocus_issues_nothing() {
    let mut core = AnnieCore::new(config_managing(&[APP_A]));
    core.handle_new_window(Some(window(1, 100, APP_A)));
    let out = core.handle_new_window(Some(window(3, 100, APP_A)));
    assert!(out.directives.is_empty());
    assert!(out.tray_event.is_none());
    assert_eq!(core.foreground_window().as_ref().unwrap().hwnd, 3);
}

#[test]
fn disabled_policy_issues_no_directives() {
    let mut config = config_managing(&[APP_A, APP_B]);
    config.enabled = false;
    let mut core = AnnieCore::new(config);
    core.handle_new_window(Some(window(1, 100, APP_A)));
    let out = core.handle_new_window(Some(window(2, 200, APP_B)));
    assert!(out.directives.is_empty());
}

#[test]
fn managed_path_matches_without_case() {
    let mut core = AnnieCore::new(config_managing(&["c:\\program files\\a\\A.EXE"]));
    let out = core.handle_new_window(Some(window(1, 100, APP_A)));
    assert_eq!(out.directives, vec![MuteDirective::Unmute(100, true)]);
}

#[test]
fn recent_app_announced_on_program_change_only() {
    let mut core = AnnieCore::new(config_managing(&[APP_A]));
    let out = core.handle_new_window(Some(window(1, 100, APP_A)));
    match out.tray_event {
        Some(TrayEvent::AddRecentApp(p, managed)) => {
            assert_eq!(p.as_str(), APP_A);
            assert!(managed);
        }
        _ => panic!("expected a recent app"),
    }
    let again = core.handle_new_window(Some(window(5, 101, "C:\\PROGRAM FILES\\A\\A.EXE")));
    assert!(again.tray_event.is_none());
    let b = core.handle_new_window(Some(window(2, 200, APP_B)));
    match b.tray_event {
        Some(TrayEvent::AddRecentApp(p, managed)) => {
            assert_eq!(p.as_str(), APP_B);
            assert!(!managed);
        }
        _ => panic!("expected a recent app"),
    }
}

#[test]
fn system_programs_are_not_recent_apps() {
    let mut core = AnnieCore::new(config_managing(&[]));
    let out = core.handle_new_window(Some(window(1, 7, "C:\\Windows\\explorer.exe")));
    assert!(out.tray_event.is_none());
    let lower = core.handle_new_window(Some(window(2, 8, "c:\\windows\\notepad.exe")));
    assert!(lower.tray_event.is_some());
}

#[test]
fn disabling_unmutes_every_open_process() {
    let mut core = AnnieCore::new(config_managing(&[APP_A]));
    let windows = vec![window(1, 30, APP_A), window(2, 10, APP_B), window(3, 30, APP_A), window(4, 20, APP_B)];
    let out = core.set_enabled_global(false, &windows);
    assert!(out.persist);
    assert_eq!(
        out.directives,
        vec![
            MuteDirective::Unmute(10, false),
            MuteDirective::Unmute(20, false),
            MuteDirective::Unmute(30, false)
        ]
    );
    assert!(!core.config().enabled);
    let again = core.set_enabled_global(false, &windows);
    assert!(!again.persist);
    assert!(again.directives.is_empty());
}

#[test]
fn enabling_applies_policy_to_every_window() {
    let mut config = config_managing(&[APP_A]);
    config.enabled = false;
    let mut core = AnnieCore::new(config);
    core.handle_new_window(Some(window(2, 20, APP_B)));
    let windows = vec![window(1, 10, APP_A), window(2, 20, APP_B), window(3, 10, APP_A)];
    let out = core.set_enabled_global(true, &windows);
    assert!(out.persist);
    assert_eq!(
        out.directives,
        vec![
            MuteDirective::Mute(10),
            MuteDirective::Unmute(20, false),
            MuteDirective::Mute(10)
        ]
    );
}

#[test]
fn adding_managed_app_mutes_background_processes() {
    let mut core = AnnieCore::new(config_managing(&[]));
    core.handle_new_window(Some(window(1, 11, APP_A)));
    let out = core.set_managed_app(path(APP_A), true, &vec![11, 12]);
    assert!(out.persist);
    assert_eq!(out.directives, vec![MuteDirective::Unmute(11, false), MuteDirective::Mute(12)]);
    assert!(core.is_managed(&path(APP_A)));
    let again = core.set_managed_app(path("C:\\PROGRAM FILES\\A\\A.EXE"), true, &vec![11, 12]);
    assert!(!again.persist);
    assert!(again.directives.is_empty());
    assert_eq!(core.config().managed_apps.len(), 1);
}

#[test]
fn removing_managed_app_unmutes_every_match() {
    let mut core = AnnieCore::new(config_managing(&[APP_A, APP_B]));
    core.handle_new_window(Some(window(1, 11, APP_A)));
    let out = core.set_managed_app(path(APP_A), false, &vec![11, 12, 13]);
    assert!(out.persist);
    assert_eq!(
        out.directives,
        vec![
            MuteDirective::Unmute(11, false),
            MuteDirective::Unmute(12, false),
            MuteDirective::Unmute(13, false)
        ]
    );
    assert!(!core.is_managed(&path(APP_A)));
    assert!(core.is_managed(&path(APP_B)));
    let again = core.set_managed_app(path(APP_A), false, &vec![11]);
    assert!(!again.persist);
    assert!(again.directives.is_empty());
}

#[test]
fn reload_relaxes_everything_and_publishes() {
    let mut core = AnnieCore::new(config_managing(&[APP_A]));
    core.handle_new_window(Some(window(1, 11, APP_A)));
    let loaded = AnnieConfig::from_parts(false, vec![APP_B.to_string()], 3);
    let windows = vec![window(1, 11, APP_A), window(2, 5, APP_B)];
    let out = core.apply_loaded_config(loaded, &windows);
    assert!(!out.persist);
    assert_eq!(out.directives, vec![MuteDirective::Unmute(5, false), MuteDirective::Unmute(11, false)]);
    match out.tray_event {
        Some(TrayEvent::UpdateFromConfig { enabled, managed_apps, max_recent_apps }) => {
            assert!(!enabled);
            assert_eq!(managed_apps.len(), 1);
            assert_eq!(managed_apps.get(0).as_str(), APP_B);
            assert_eq!(max_recent_apps, 3);
        }
        _ => panic!("expected a config update"),
    }
    assert!(!core.config().enabled);
    assert_eq!(core.foreground_window().as_ref().unwrap().pid, 11);
}

#[test]
fn force_unmute_deduplicates_pids() {
    let windows = vec![window(1, 9, APP_A), window(2, 3, APP_B), window(3, 9, APP_A)];
    assert_eq!(
        force_unmute_all(&windows),
        vec![MuteDirective::Unmute(3, false), MuteDirective::Unmute(9, false)]
    );
    assert!(force_unmute_all(&vec![]).is_empty());
}
