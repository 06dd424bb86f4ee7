use annie::config::AnnieConfig;
use annie::controller::CoreMessage;
use annie::path::ProgramPath;
use annie::tray::{file_stem_exists, get_app_name, get_app_tray_text, TrayEvent, TrayState};

fn path(s: &str) -> ProgramPath {
    ProgramPath::new(s.to_string())
}

fn recent(state: &TrayState) -> Vec<(String, bool)> {
    state
        .recent_apps()
        .iter()
        .map(|(p, m)| (p.as_str().to_string(), *m))
        .collect()
}

fn configure(state: &mut TrayState, enabled: bool, managed: &[&str], max: usize) {
    let config = AnnieConfig::from_parts(enabled, managed.iter().map(|s| s.to_string()).collect(), max);
    state.handle_event(TrayEvent::UpdateFromConfig {
        enabled: config.enabled,
        managed_apps: config.managed_apps,
        max_recent_apps: config.max_recent_apps,
    });
}

#[test]
fn recent_apps_most_recent_first_and_capped() {
    let mut state = TrayState::new();
    configure(&mut state, true, &[], 2);
    state.handle_event(TrayEvent::AddRecentApp(path("C:\\a.exe"), false));
    state.handle_event(TrayEvent::AddRecentApp(path("C:\\b.exe"), true));
    let action = state.handle_event(TrayEvent::AddRecentApp(path("C:\\c.exe"), false));
    assert!(action.refresh);
    assert!(action.message.is_none());
    assert_eq!(
        recent(&state),
        vec![("C:\\c.exe".to_string(), false), ("C:\\b.exe".to_string(), true)]
    );
    state.handle_event(TrayEvent::AddRecentApp(path("C:\\B.EXE"), false));
    assert_eq!(
        recent(&state),
        vec![("C:\\B.EXE".to_string(), false), ("C:\\c.exe".to_string(), false)]
    );
}

#[test]
fn zero_recent_apps_keeps_list_empty() {
    let mut state = TrayState::new();
    state.handle_event(TrayEvent::AddRecentApp(path("C:\\a.exe"), false));
    assert!(recent(&state).is_empty());
}

#[test]
fn config_update_truncates_and_marks_managed() {
    let mut state = TrayState::new();
    configure(&mut state, true, &[], 5);
    for p in ["C:\\a.exe", "C:\\b.exe", "C:\\c.exe"] {
        state.handle_event(TrayEvent::AddRecentApp(path(p), false));
    }
    configure(&mut state, false, &["c:\\C.EXE", "C:\\a.exe"], 2);
    assert!(!state.enabled());
    assert_eq!(state.max_recent_apps(), 2);
    assert_eq!(
        recent(&state),
        vec![("C:\\c.exe".to_string(), true), ("C:\\b.exe".to_string(), false)]
    );
}

#[test]
fn toggles_send_core_messages() {
    let mut state = TrayState::new();
    configure(&mut state, true, &[], 5);
    state.handle_event(TrayEvent::AddRecentApp(path("C:\\a.exe"), false));
    let action = state.handle_event(TrayEvent::ToggleProgram(0));
    match action.message {
        Some(CoreMessage::SetEnabledApp(p, managed)) => {
            assert_eq!(p.as_str(), "C:\\a.exe");
            assert!(managed);
        }
        _ => panic!("expected SetEnabledApp"),
    }
    assert_eq!(recent(&state), vec![("C:\\a.exe".to_string(), true)]);
    let global = state.handle_event(TrayEvent::ToggleGlobal);
    assert!(matches!(global.message, Some(CoreMessage::SetEnabledGlobal(false))));
    assert!(!state.enabled());
}

#[test]
fn menu_commands_map_to_core_messages() {
    let mut state = TrayState::new();
    assert!(matches!(state.handle_event(TrayEvent::OpenConfig).message, Some(CoreMessage::OpenConfig)));
    assert!(matches!(state.handle_event(TrayEvent::ReloadConfig).message, Some(CoreMessage::ReloadConfig)));
    assert!(matches!(state.handle_event(TrayEvent::ForceUnmuteAll).message, Some(CoreMessage::ForceUnmuteAll)));
    let about = state.handle_event(TrayEvent::ShowAbout);
    assert!(about.show_about && about.message.is_none() && !about.exit);
    let exit = state.handle_event(TrayEvent::Exit);
    assert!(exit.exit);
    assert!(matches!(exit.message, Some(CoreMessage::ExitApplication)));
}

#[test]
fn app_name_capitalises_stem() {
    assert_eq!(get_app_name("C:\\Windows\\notepad.exe"), "Notepad");
    assert_eq!(get_app_name("C:\\Program Files\\App\\Firefox.exe"), "Firefox");
    assert_eq!(get_app_name("C:/tools/archive.tar.gz"), "Archive.tar");
    assert_eq!(get_app_name("C:\\x\\.hidden"), ".hidden");
    assert_eq!(get_app_name("C:\\x\\ßig.exe"), "SSig");
    assert_eq!(get_app_name("noext"), "Noext");
}

#[test]
fn tray_text_names_program_and_path() {
    assert_eq!(
        get_app_tray_text("C:\\Program Files\\Mozilla\\firefox.exe"),
        "Firefox (C:\\Program Files\\Mozilla\\firefox.exe)"
    );
}

#[test]
fn app_name_skips_trailing_separators_and_dots() {
    assert_eq!(get_app_name("C:/Apps/spotify.exe/"), "Spotify");
    assert_eq!(get_app_name("C:/Apps/spotify.exe/."), "Spotify");
    assert_eq!(get_app_name("C:\\Apps\\.\\Tool.exe\\\\"), "Tool");
    assert_eq!(get_app_name("C:notepad.exe"), "Notepad");
}

#[test]
fn paths_without_file_name_have_no_stem() {
    assert!(!file_stem_exists(""));
    assert!(!file_stem_exists("C:"));
    assert!(!file_stem_exists("C:\\"));
    assert!(!file_stem_exists("."));
    assert!(!file_stem_exists("C:\\x\\.."));
    assert!(!file_stem_exists("C:\\x\\..\\."));
    assert!(file_stem_exists("C:\\x\\..."));
    assert!(file_stem_exists("C:\\x\\a.exe"));
}

#[test]
fn recent_app_listed_once_after_readding() {
    let mut state = TrayState::new();
    configure(&mut state, true, &[], 3);
    for p in ["C:\\a.exe", "C:\\b.exe", "C:\\A.EXE", "C:\\b.exe", "c:\\a.exe"] {
        state.handle_event(TrayEvent::AddRecentApp(path(p), false));
    }
    assert_eq!(
        recent(&state),
        vec![("c:\\a.exe".to_string(), false), ("C:\\b.exe".to_string(), false)]
    );
}
