use dee_bugee::update::{
    compare_release, parse_version, CheckResult, Release, ReleaseAsset, UpdateMonitor,
    UpdateRequest, UpdateState, UPDATER_ASSET, VIEWER_ASSET,
};

fn texts(values: &[&str]) -> Vec<String> {
    values.iter().map(|value| value.to_string()).collect()
}

fn asset(name: &str, digest: Option<&str>) -> ReleaseAsset {
    ReleaseAsset {
        name: name.to_string(),
        browser_download_url: "https://example.test/viewer".to_string(),
        digest: digest.map(|digest| digest.to_string()),
    }
}

#[test]
fn release_asset_requires_exactly_one_match() {
    let release = Release {
        tag_name: "v1.2.3".to_string(),
        assets: vec![asset(VIEWER_ASSET, None)],
    };
    assert_eq!(release.asset(VIEWER_ASSET).ok().unwrap().name, VIEWER_ASSET);
    assert!(release.asset(UPDATER_ASSET).is_err());
    let twice = Release {
        tag_name: "v1.2.3".to_string(),
        assets: vec![asset(VIEWER_ASSET, None), asset(VIEWER_ASSET, None)],
    };
    assert!(twice.asset(VIEWER_ASSET).is_err());
}

#[test]
fn version_tags_compare_as_semver() {
    assert!(matches!(compare_release("v1.10.0", "1.9.0"), CheckResult::Available(_)));
    assert!(matches!(compare_release("1.9.0", "v1.10.0"), CheckResult::Current));
    assert!(matches!(compare_release("v1.9.0", "1.9.0"), CheckResult::Current));
    assert!(matches!(compare_release("v1.9.0-rc.1", "1.9.0"), CheckResult::Current));
    match compare_release("v2.0.0", "1.0.0") {
        CheckResult::Available(update) => {
            assert_eq!(update.version, "2.0.0");
            assert_eq!(update.tag_name, "v2.0.0");
        }
        _ => panic!("expected an update"),
    }
}

#[test]
fn faulty_versions_are_reported() {
    assert_eq!(parse_version("v1.2.3"), Ok("1.2.3".to_string()));
    let fault = semver::Version::parse("1.2").unwrap_err();
    assert_eq!(
        parse_version("v1.2"),
        Err(format!("Invalid release version \"v1.2\": {fault}"))
    );
    assert!(matches!(compare_release("latest", "1.0.0"), CheckResult::Failed(_)));
}

#[test]
fn update_request_preserves_restart_arguments() {
    let request = UpdateRequest::parse(&texts(&[
        "--wait-pid",
        "42",
        "--target",
        "C:/DeeBugee/dee-bugee.exe",
        "--updater-target",
        "C:/DeeBugee/dee-bugee-updater.exe",
        "--restart-arg",
        "--project",
        "--restart-arg",
        "C:/work",
    ]))
    .ok()
    .unwrap();
    assert_eq!(request.wait_pid, 42);
    assert_eq!(request.restart_arguments, vec!["--project", "C:/work"]);
}

#[test]
fn faulty_updater_arguments_are_refused() {
    let refused = |values: &[&str]| UpdateRequest::parse(&texts(values)).err().unwrap();
    assert_eq!(refused(&["--loud"]), "Unknown updater option: --loud");
    assert_eq!(refused(&["--target"]), "--target requires a value");
    assert_eq!(refused(&["--wait-pid", "-1"]), "--wait-pid must be a process id");
    assert_eq!(refused(&["--wait-pid", "4294967296"]), "--wait-pid must be a process id");
    assert_eq!(refused(&[]), "--wait-pid is required");
    assert_eq!(refused(&["--wait-pid", "1"]), "--target is required");
    assert_eq!(
        refused(&["--wait-pid", "1", "--target", "a"]),
        "--updater-target is required"
    );
}

#[test]
fn contents_are_held_against_their_digests() {
    let digest = "sha256:BA7816BF8F01CFEA414140DE5DAE2223B00361A396177A9CB410FF61F20015AD";
    let file = asset("file", Some(digest));
    assert_eq!(file.verify_content(b"abc"), Ok(()));
    assert_eq!(
        file.verify_content(b"abd"),
        Err("SHA-256 verification failed for file".to_string())
    );
    assert_eq!(
        asset("file", Some("sha256:12")).verify_content(b"abc"),
        Err("Release asset file has no valid SHA-256 digest".to_string())
    );
    assert!(asset("file", None).expected_hash().is_err());
    assert!(asset("file", Some("md5:12")).expected_hash().is_err());
}

#[test]
fn only_who_asked_is_told_that_there_is_nothing_new() {
    let mut monitor = UpdateMonitor::new();
    assert!(!monitor.begin_check());
    assert_eq!(monitor.receive(CheckResult::Current), None);
    assert!(monitor.begin_check());
    assert!(!monitor.begin_check());
    assert_eq!(
        monitor.receive(CheckResult::Current).as_deref(),
        Some("DeeBugee is up to date")
    );
    assert_eq!(monitor.receive(CheckResult::Current), None);
    assert_eq!(monitor.receive(CheckResult::Failed("offline".to_string())), None);
    assert!(matches!(monitor.state, UpdateState::Failed(_)));
    monitor.dismiss();
    assert!(matches!(monitor.state, UpdateState::Idle));
}
