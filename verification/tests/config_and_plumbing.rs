use vault_hunter::config::{
    defaultXMLExportPeriod, findConfigDir, findConfigFile, findRuntimeInfoFile, Config,
};
use vault_hunter::error::Error;
use vault_hunter::export::{export_decision, ExportPlan};
use vault_hunter::health::HealthStatus;
use vault_hunter::path::Path;
use vault_hunter::urls::{
    get_url, health_url, list_url, login_url, lookup_url, mounts_url, revoke_url,
};

fn conf(end_point: &str, username: &str) -> Config {
    Config::assemble(
        Vec::new(),
        String::from(end_point),
        String::from(username),
        None,
        None,
        None,
        None,
        86400,
    )
}

#[test]
fn config_dir_prefers_xdg_then_home() {
    let xdg = Some(String::from("/xdg"));
    let home = Some(String::from("/home/me"));
    assert_eq!(findConfigDir(xdg.clone(), home.clone()).unwrap(), "/xdg/vault-hunter");
    assert_eq!(
        findConfigDir(Some(String::new()), home.clone()).unwrap(),
        "/home/me/.config/vault-hunter"
    );
    assert_eq!(findConfigDir(None, home).unwrap(), "/home/me/.config/vault-hunter");
    assert_eq!(findConfigDir(None, Some(String::new())), None);
    assert_eq!(findConfigDir(None, None), None);
}

#[test]
fn config_and_runtime_files_hang_off_the_config_dir() {
    let home = Some(String::from("/h"));
    assert_eq!(
        findConfigFile(None, home.clone()).unwrap(),
        "/h/.config/vault-hunter/config.toml"
    );
    assert_eq!(
        findRuntimeInfoFile(None, home.clone()).unwrap(),
        "/h/.config/vault-hunter/runtime.json"
    );
    let mut c = conf("https://v/", "u");
    assert_eq!(
        c.runtimeInfoPath(None, home.clone()).unwrap(),
        "/h/.config/vault-hunter/runtime.json"
    );
    c.cache_path = Some(String::from("/tmp/cache.json"));
    assert_eq!(c.runtimeInfoPath(None, home).unwrap(), "/tmp/cache.json");
}

#[test]
fn clipboard_program_falls_back_by_platform() {
    let mut c = conf("https://v/", "u");
    assert_eq!(c.clipboardProg("linux").unwrap(), "xclip");
    assert_eq!(c.clipboardProg("macos").unwrap(), "pbcopy");
    assert_eq!(c.clipboardProg("windows"), None);
    c.clipboard_prog = Some(String::from("wl-copy"));
    assert_eq!(c.clipboardProg("linux").unwrap(), "wl-copy");
}

#[test]
fn default_settings_match_the_documented_ones() {
    let c = Config::default();
    assert_eq!(c.end_point, "https://localhost/");
    assert_eq!(c.username(), "metrowind");
    assert!(c.ca_certs.is_empty());
    assert_eq!(c.xml_export_period, 86400);
    assert_eq!(defaultXMLExportPeriod(), 86400);
}

#[test]
fn urls_are_built_on_the_end_point_with_a_lowercased_username() {
    let c = conf("https://v/", "Alice");
    assert_eq!(health_url(&c), "https://v/v1/sys/health");
    assert_eq!(mounts_url(&c), "https://v/v1/sys/mounts");
    assert_eq!(revoke_url(&c), "https://v/v1/auth/token/revoke-self");
    assert_eq!(lookup_url(&c), "https://v//v1/auth/token/lookup-self");
    assert_eq!(login_url(&c), "https://v/v1/auth/userpass/login/alice");
    let p = Path::new().pushed("a").pushed("b");
    assert_eq!(list_url(&c, &p), "https://v//v1/passwords/metadata/alice/a/b");
    assert_eq!(get_url(&c, &p), "https://v//v1/passwords/data/alice/a/b");
    let root = Path::new();
    assert_eq!(list_url(&c, &root), "https://v//v1/passwords/metadata/alice/");
}

#[test]
fn health_statuses_map_from_the_fixed_codes() {
    assert!(matches!(HealthStatus::fromHTTPStatus(200), Ok(HealthStatus::Active)));
    assert!(matches!(HealthStatus::fromHTTPStatus(429), Ok(HealthStatus::Standby)));
    assert!(matches!(HealthStatus::fromHTTPStatus(472), Ok(HealthStatus::Recovery)));
    assert!(matches!(HealthStatus::fromHTTPStatus(473), Ok(HealthStatus::Performance)));
    assert!(matches!(HealthStatus::fromHTTPStatus(501), Ok(HealthStatus::Uninitialized)));
    assert!(matches!(HealthStatus::fromHTTPStatus(503), Ok(HealthStatus::Sealed)));
    assert!(matches!(HealthStatus::fromHTTPStatus(404), Err(Error::VaultError(_))));
    assert_eq!(HealthStatus::Active.name(), "active");
    assert_eq!(HealthStatus::Sealed.name(), "sealed");
}

#[test]
fn export_runs_only_when_due_and_configured() {
    // Not due yet.
    assert_eq!(export_decision(1000, Some(500), 600, true), ExportPlan::Skip);
    // Due, but nobody to encrypt to.
    assert_eq!(export_decision(1200, Some(500), 600, false), ExportPlan::MissingGpgUser);
    // Due and configured.
    assert_eq!(export_decision(1200, Some(500), 600, true), ExportPlan::Export);
    // Never exported before: due.
    assert_eq!(export_decision(0, None, 86400, true), ExportPlan::Export);
    // Boundary: exactly one period elapsed counts as due.
    assert_eq!(export_decision(1100, Some(500), 600, true), ExportPlan::Export);
}

#[test]
fn error_messages_are_carried_whole() {
    let e = Error::VaultError(String::from("m1"));
    assert_eq!(e.message(), "m1");
    let e = Error::HTTPError(String::from("m2"));
    assert_eq!(e.message(), "m2");
    let e = Error::RuntimeError(String::from("m3"));
    assert_eq!(e.message(), "m3");
}
