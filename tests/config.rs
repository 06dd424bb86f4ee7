use annie::config::{serialize_toml_config, AnnieConfig};
use annie::path::ProgramPath;

const EXPECTED_HEAD: &str = "# Annie config file\n\
\n\
# Managed apps can be added or removed using the \"Recent apps\" context menu action.\n\
# If manual edits are required, after saving the file, reload the configuration using the \"Reload config from file\" context menu action.\n\
# This will prevent annie from overwriting this file with the program's internal state.\n\
\n\
# Whether to do any muting/unmuting. Setting this to false is equivalent to the annie process not running.\n";

fn load(text: &str) -> AnnieConfig {
    let table: toml::Table = toml::from_str(text).unwrap();
    let enabled = table["enabled"].as_bool().unwrap();
    let apps = table["managed_apps"]
        .as_array()
        .unwrap()
        .iter()
        .map(|v| v.as_str().unwrap().to_string())
        .collect();
    let max = table["max_recent_apps"].as_integer().unwrap() as usize;
    AnnieConfig::from_parts(enabled, apps, max)
}

#[test]
fn default_config_text() {
    let text = serialize_toml_config(&AnnieConfig::new_empty()).unwrap();
    let expected = format!(
        "{EXPECTED_HEAD}enabled = true\n\
\n\
# Programs managed by annie. Only programs specified here are automatically muted/unmuted by annie.\n\
managed_apps = [\n\
]\n\
\n\
# Maximum number of items to be shown in the \"Recent apps\" menu.\n\
max_recent_apps = 10\n"
    );
    assert_eq!(text, expected);
}

#[test]
fn managed_apps_written_sorted_without_case() {
    let config = AnnieConfig::from_parts(
        false,
        vec!["C:\\b.exe".to_string(), "C:\\A.exe".to_string(), "C:/c.exe".to_string()],
        7,
    );
    let text = serialize_toml_config(&config).unwrap();
    let expected = format!(
        "{EXPECTED_HEAD}enabled = false\n\
\n\
# Programs managed by annie. Only programs specified here are automatically muted/unmuted by annie.\n\
managed_apps = [\n    \"C:/c.exe\",\n    'C:\\A.exe',\n    'C:\\b.exe',\n]\n\
\n\
# Maximum number of items to be shown in the \"Recent apps\" menu.\n\
max_recent_apps = 7\n"
    );
    assert_eq!(text, expected);
}

#[test]
fn save_load_save_is_stable() {
    let config = AnnieConfig::from_parts(
        true,
        vec![
            "C:\\Zed\\z.exe".to_string(),
            "C:\\alpha\\A.exe".to_string(),
            "C:\\ALPHA\\a.EXE".to_string(),
            "D:\\it's\\q.exe".to_string(),
        ],
        4,
    );
    let first = serialize_toml_config(&config).unwrap();
    let reloaded = load(&first);
    let second = serialize_toml_config(&reloaded).unwrap();
    assert_eq!(first, second);
    assert_eq!(reloaded.managed_apps.len(), 3);
}

#[test]
fn loading_keeps_first_of_equal_paths() {
    let config = AnnieConfig::from_parts(
        true,
        vec!["C:\\App\\X.exe".to_string(), "c:\\app\\x.exe".to_string()],
        10,
    );
    assert_eq!(config.managed_apps.len(), 1);
    assert_eq!(config.managed_apps.get(0).as_str(), "C:\\App\\X.exe");
    assert!(config.is_managed(&ProgramPath::new("C:\\APP\\X.EXE".to_string())));
}

#[test]
fn oversized_recent_limit_cannot_be_saved() {
    let mut config = AnnieConfig::new_empty();
    config.max_recent_apps = (i64::MAX as usize) + 1;
    assert!(serialize_toml_config(&config).is_err());
    config.max_recent_apps = i64::MAX as usize;
    let text = serialize_toml_config(&config).unwrap();
    assert!(text.ends_with("max_recent_apps = 9223372036854775807\n"));
}

#[test]
fn managed_apps_insert_and_remove() {
    let mut config = AnnieConfig::new_empty();
    assert!(config.managed_apps.insert(ProgramPath::new("C:\\b.exe".to_string())));
    assert!(config.managed_apps.insert(ProgramPath::new("C:\\a.exe".to_string())));
    assert!(!config.managed_apps.insert(ProgramPath::new("C:\\B.EXE".to_string())));
    assert_eq!(config.managed_apps.len(), 2);
    assert_eq!(config.managed_apps.get(0).as_str(), "C:\\a.exe");
    assert!(config.managed_apps.remove(&ProgramPath::new("c:\\A.exe".to_string())));
    assert!(!config.managed_apps.remove(&ProgramPath::new("c:\\A.exe".to_string())));
    assert_eq!(config.managed_apps.len(), 1);
    assert_eq!(config.managed_apps.get(0).as_str(), "C:\\b.exe");
}
