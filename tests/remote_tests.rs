use hbx::config::HbxConfig;
use hbx::error::StoreError;
use hbx::remote::{is_present_flag, login_target, remote_has_hbx, remote_paths, remote_ready};

fn pairs(v: &[(&str, &str)]) -> Vec<(String, String)> {
    v.iter().map(|(a, b)| (a.to_string(), b.to_string())).collect()
}

#[test]
fn login_target_with_port() {
    let (user, host) = login_target("alice@example.org", &Some("2222".to_string())).unwrap();
    assert_eq!(user, "alice");
    assert_eq!(host, "example.org:2222");
}

#[test]
fn login_target_takes_second_piece() {
    let (user, host) = login_target("a@b@c", &None).unwrap();
    assert_eq!(user, "a");
    assert_eq!(host, "b:22");
}

#[test]
fn login_target_without_user_fails() {
    assert_eq!(login_target("example.org", &None), Err(StoreError::InvalidAddress));
}

#[test]
fn remote_paths_reads_both_keys() {
    let info = pairs(&[("storage", "/r/store"), ("config", "/r/config")]);
    assert_eq!(
        remote_paths(&info),
        Ok(("/r/config".to_string(), "/r/store".to_string()))
    );
}

#[test]
fn remote_paths_missing_key_fails() {
    let info = pairs(&[("config", "/r/config")]);
    assert_eq!(remote_paths(&info), Err(StoreError::RemoteInfoError));
    assert_eq!(remote_paths(&Vec::new()), Err(StoreError::RemoteInfoError));
}

#[test]
fn presence_reply_is_trimmed() {
    assert!(remote_has_hbx("0\n"));
    assert!(remote_has_hbx("  0 "));
    assert!(!remote_has_hbx("1\n"));
    assert!(!remote_has_hbx(""));
    assert!(is_present_flag("0"));
    assert!(!is_present_flag("0\n"));
    assert!(!is_present_flag("00"));
}

#[test]
fn hbx_config_paths() {
    let c = HbxConfig::new("/opt/hbx".to_string());
    assert_eq!(c.path(), "/opt/hbx");
    assert_eq!(c.config_path(), "/opt/hbx/config");
    assert_eq!(c.store_path(), "/opt/hbx/store");
    assert_eq!(c.template_path(), "/opt/hbx/tmp");
}

#[test]
fn remote_readiness_decision() {
    assert_eq!(remote_ready(true, false), Ok(false));
    assert_eq!(remote_ready(true, true), Ok(false));
    assert_eq!(remote_ready(false, true), Ok(true));
    assert_eq!(remote_ready(false, false), Err(StoreError::RemoteNotInstalled));
}
