use dee_bugee::hash::fingerprint;
use dee_bugee::launch::{
    parse_launch_request, parse_startup_request, LaunchRequest, ProjectConfiguration,
    StartupRequest,
};
use dee_bugee::project::{
    add_project_source, configure_project, configured_notice, display_path, environment_names,
    expand_environment_variables, git_origin_url, id_component, manifest_source_argument,
    manifest_source_path, portable_path, project_display_name, project_id_from_remote,
    project_launch_from_config, project_root_from_manifest, stable_project_key,
    suggested_project_id, ProjectConfig, ProjectSetup, RootPlace, RootState,
};

fn texts(values: &[&str]) -> Vec<String> {
    values.iter().map(|value| value.to_string()).collect()
}

fn launch(values: &[&str]) -> LaunchRequest {
    let arguments = texts(values);
    let projects = vec![false; arguments.len()];
    parse_launch_request(&arguments, &projects)
}

fn startup(values: &[&str]) -> Result<StartupRequest, String> {
    let arguments = texts(values);
    let projects = vec![false; arguments.len()];
    parse_startup_request(&arguments, &projects)
}

fn manifest(sources: &[&str]) -> ProjectConfig {
    ProjectConfig {
        version: 1,
        id: "com.example.viewer-test".to_string(),
        name: "Viewer Test".to_string(),
        sources: texts(sources),
    }
}

#[test]
fn workspace_and_log_arguments_are_parsed_without_affecting_legacy_paths() {
    let request = launch(&[
        "--workspace",
        "C:/work/project-a/.deebugee/workspace.toml",
        "--logs",
        "C:/logs/project-a.jsonl",
        "C:/logs/sidecar.jsonl",
    ]);

    assert_eq!(
        request.workspace_path.as_deref(),
        Some("C:/work/project-a/.deebugee/workspace.toml")
    );
    assert_eq!(request.project_root, None);
    assert_eq!(
        request.log_paths,
        vec!["C:/logs/project-a.jsonl", "C:/logs/sidecar.jsonl"]
    );
}

#[test]
fn project_argument_is_kept_separate_from_log_paths() {
    let request = launch(&[
        "--project",
        "C:/work/project-a",
        "--logs",
        "C:/logs/override.jsonl",
    ]);

    assert_eq!(request.workspace_path, None);
    assert_eq!(request.project_root.as_deref(), Some("C:/work/project-a"));
    assert_eq!(request.log_paths, vec!["C:/logs/override.jsonl"]);
}

#[test]
fn positional_project_root_is_discovered_from_its_manifest() {
    let request = parse_launch_request(&texts(&["/tmp/project"]), &vec![true]);
    assert_eq!(request.project_root.as_deref(), Some("/tmp/project"));
    assert!(request.log_paths.is_empty());
}

#[test]
fn configure_project_arguments_are_parsed_without_launching_the_viewer() {
    let request = startup(&[
        "--configure-project",
        "C:/work/project-a",
        "--project-id",
        "com.example.project-a",
        "--project-name",
        "Project A",
        "--source",
        "%LOCALAPPDATA%/ProjectA/logs",
        "--source",
        "logs/development",
        "--force",
    ])
    .ok()
    .unwrap();

    let StartupRequest::Configure(request) = request else {
        panic!("expected a configure request");
    };
    assert_eq!(request.root, "C:/work/project-a");
    assert_eq!(request.id, "com.example.project-a");
    assert_eq!(request.name, "Project A");
    assert_eq!(
        request.sources,
        ["%LOCALAPPDATA%/ProjectA/logs", "logs/development"]
    );
    assert!(request.overwrite);
}

#[test]
fn faulty_configure_arguments_are_refused() {
    let refused = |values: &[&str]| startup(values).err().unwrap();
    assert!(refused(&["--configure-project"]).starts_with("Usage: "));
    assert_eq!(
        refused(&["--configure-project", "root", "--project-id"]),
        "--configure-project requires a value after --project-id"
    );
    assert_eq!(
        refused(&["--configure-project", "root", "--loud"]),
        "Unknown --configure-project option: --loud"
    );
    assert_eq!(
        refused(&["--configure-project", "root", "--project-name", "A"]),
        "--configure-project requires --project-id <id>"
    );
    assert_eq!(
        refused(&["--configure-project", "root", "--project-id", "a"]),
        "--configure-project requires --project-name <name>"
    );
}

#[test]
fn windows_are_titled_by_project_or_workspace() {
    let request = LaunchRequest::new(
        Some("workspace.toml".to_string()),
        Some("root".to_string()),
        vec![],
    );
    assert_eq!(
        request.window_title(Some("Mine".to_string()), Some("theirs".to_string())),
        "DeeBugee — Mine"
    );
    assert_eq!(request.window_title(None, Some("theirs".to_string())), "DeeBugee — theirs");
    let plain = LaunchRequest::new(None, None, vec![]);
    assert_eq!(plain.window_title(Some("Mine".to_string()), None), "DeeBugee");
}

#[test]
fn project_manifest_resolves_relative_sources_and_private_workspace() {
    let config = manifest(&["logs"]);
    let project = project_launch_from_config(&config, "project.toml", &vec![vec![]], true)
        .ok()
        .unwrap();
    assert_eq!(project.sources, vec!["logs"]);
    assert_eq!(project.workspace_key, stable_project_key("com.example.viewer-test"));
    assert_eq!(
        project_display_name(Some(config.name.clone()), Some("root".to_string())).as_deref(),
        Some("Viewer Test")
    );
}

#[test]
fn faulty_manifests_are_refused() {
    let refused = |config: &ProjectConfig, local: bool| {
        let values = vec![vec![None]; config.sources.len()];
        project_launch_from_config(config, "project.toml", &values, local)
            .err()
            .unwrap()
    };
    let mut config = manifest(&["logs"]);
    config.version = 2;
    assert_eq!(
        refused(&config, true),
        "Unsupported project manifest version 2 in project.toml"
    );
    config = manifest(&["logs"]);
    config.name = " ".to_string();
    assert_eq!(
        refused(&config, true),
        "Project manifest project.toml requires non-empty id and name values"
    );
    assert_eq!(
        refused(&manifest(&[]), true),
        "Project manifest project.toml requires at least one source"
    );
    assert!(refused(&manifest(&["%MISSING%/logs"]), true).contains("%MISSING%"));
    assert_eq!(
        refused(&manifest(&["logs"]), false),
        "LOCALAPPDATA is unavailable; cannot store project workspace"
    );
}

#[test]
fn project_sources_expand_environment_variables_without_guessing() {
    assert_eq!(environment_names("%DATA_ROOT%/logs"), vec!["DATA_ROOT"]);
    let expanded = expand_environment_variables(
        "%DATA_ROOT%/logs",
        &vec![Some("C:/project-data".to_string())],
    )
    .unwrap();
    assert_eq!(expanded, "C:/project-data/logs");
    assert!(
        expand_environment_variables("%MISSING%/logs", &vec![None])
            .unwrap_err()
            .contains("%MISSING%")
    );
    assert!(expand_environment_variables("%OPEN/logs", &vec![]).is_err());
    assert_eq!(expand_environment_variables("logs", &vec![]).unwrap(), "logs");
}

#[test]
fn project_ids_are_suggested_from_common_git_remote_shapes() {
    assert_eq!(
        project_id_from_remote("https://github.com/ExampleOrg/MyApp.git").as_deref(),
        Some("com.github.exampleorg.myapp")
    );
    assert_eq!(
        project_id_from_remote("git@github.com:ExampleOrg/MyApp.git").as_deref(),
        Some("com.github.exampleorg.myapp")
    );
    assert_eq!(
        project_id_from_remote("ssh://git@git.example.dev/Team/My App.git").as_deref(),
        Some("dev.example.git.team.my-app")
    );
}

#[test]
fn project_ids_fall_back_to_the_name() {
    assert_eq!(id_component("  My App! "), "my-app");
    assert_eq!(suggested_project_id(None, "My App"), "local.my-app");
    assert_eq!(
        suggested_project_id(Some("https://github.com/a/b"), "My App"),
        "com.github.a.b"
    );
}

#[test]
fn the_origin_is_read_from_the_repository() {
    let text = "[core]\n\tbare = false\n[remote \"upstream\"]\n\turl = https://a/b\n[remote \"origin\"]\n\tfetch = x\n\turl = git@host:me/mine.git\n";
    assert_eq!(git_origin_url(text).as_deref(), Some("git@host:me/mine.git"));
    assert_eq!(git_origin_url("[core]\n"), None);
}

#[test]
fn selected_project_sources_are_saved_as_portable_relative_paths() {
    assert_eq!(
        manifest_source_path(Some("logs\\development"), None, "/root/logs/development"),
        "logs/development"
    );
    assert_eq!(manifest_source_path(Some(""), None, "/root"), ".");
    assert_eq!(manifest_source_path(None, Some(""), "/data"), "%LOCALAPPDATA%");
    assert_eq!(manifest_source_path(None, Some("App\\logs"), "/data"), "%LOCALAPPDATA%/App/logs");
    assert_eq!(manifest_source_path(None, None, "C:\\logs"), "C:/logs");
    assert_eq!(portable_path("a\\b/c"), "a/b/c");
}

#[test]
fn project_setup_hides_windows_verbatim_path_prefixes() {
    assert_eq!(
        display_path(r"\\?\C:\work\MyApp"),
        r"C:\work\MyApp"
    );
    assert_eq!(
        display_path(r"\\?\UNC\server\logs\MyApp"),
        r"\\server\logs\MyApp"
    );
}

#[test]
fn picked_source_reuses_the_initial_empty_row() {
    let mut sources = vec![String::new()];
    add_project_source(&mut sources, "logs".to_string());
    assert_eq!(sources, vec!["logs"]);

    add_project_source(&mut sources, "other.jsonl".to_string());
    assert_eq!(sources, vec!["logs", "other.jsonl"]);
}

#[test]
fn configured_projects_take_their_sources_as_given() {
    let configuration = ProjectConfiguration {
        root: "root".to_string(),
        id: " com.example.cli-test ".to_string(),
        name: "CLI Test".to_string(),
        sources: texts(&["logs\\development", "%DATA%\\logs", "/abs/logs"]),
        overwrite: false,
    };
    let places = vec![None, Some("ignored".to_string()), Some("abs".to_string())];
    let values = |data: Option<&str>| vec![vec![], vec![data.map(str::to_string)], vec![]];
    let configured = |configuration: &ProjectConfiguration,
                      root: RootState,
                      data: Option<&str>,
                      has_local_data: bool,
                      exists: bool| {
        configure_project(
            configuration,
            root,
            &places,
            "project.toml",
            &values(data),
            has_local_data,
            exists,
        )
    };
    let config = configured(&configuration, RootState::Directory, Some("d"), true, false)
        .ok()
        .unwrap();
    assert_eq!(config.version, 1);
    assert_eq!(config.id, "com.example.cli-test");
    assert_eq!(config.sources, vec!["logs/development", "%DATA%/logs", "abs"]);
    let refused = |root: RootState| {
        configured(&configuration, root, Some("d"), true, false).err().unwrap()
    };
    assert_eq!(
        refused(RootState::NotADirectory("/file".to_string())),
        "Project root /file is not a directory"
    );
    assert_eq!(
        refused(RootState::Unresolved("gone".to_string())),
        "Unable to resolve project root root: gone"
    );
    let refused = |configuration: &ProjectConfiguration, data: Option<&str>, local: bool, exists: bool| {
        configured(configuration, RootState::Directory, data, local, exists)
            .err()
            .unwrap()
    };
    assert_eq!(
        refused(&configuration, Some("d"), true, true),
        "Unable to create project manifest project.toml: it already exists"
    );
    assert_eq!(
        refused(&configuration, Some("d"), false, false),
        "LOCALAPPDATA is unavailable; cannot store project workspace"
    );
    assert!(refused(&configuration, None, true, false).contains("DATA"));
    let forced = ProjectConfiguration { overwrite: true, ..configuration };
    assert!(configured(&forced, RootState::Directory, Some("d"), true, true).is_ok());
    let nameless = ProjectConfiguration { name: " ".to_string(), ..forced };
    assert_eq!(
        refused(&nameless, Some("d"), true, true),
        "Project manifest project.toml requires non-empty id and name values"
    );
    let sourceless = ProjectConfiguration {
        name: "Test".to_string(),
        sources: vec![],
        ..nameless
    };
    assert_eq!(
        configure_project(
            &sourceless,
            RootState::Directory,
            &vec![],
            "project.toml",
            &vec![],
            true,
            false
        )
        .err()
        .unwrap(),
        "Project manifest project.toml requires at least one source"
    );
    assert_eq!(manifest_source_argument(" logs\\a ", None), "logs/a");
}

#[test]
fn setups_are_saved_when_complete_and_confirmed() {
    let mut setup = ProjectSetup::new(Some("My App".to_string()), None);
    assert_eq!(setup.id, "local.my-app");
    assert!(!setup.can_save());
    setup.add_source(" logs ".to_string());
    assert!(setup.can_save());
    assert!(setup.request_save());
    let config = setup.config();
    assert_eq!(config.sources, vec!["logs"]);
    assert!(project_launch_from_config(&config, "project.toml", &vec![vec![]], true).is_ok());

    let mut existing = ProjectSetup::from_config(config);
    assert!(!existing.request_save());
    assert!(existing.confirm_overwrite);
    assert!(existing.request_save());
    existing.remove_source(0);
    assert!(!existing.confirm_overwrite);
    assert!(!existing.can_save());
    assert_eq!(ProjectSetup::new(None, None).name, "My Application");
}

#[test]
fn roots_lie_around_their_manifests() {
    assert_eq!(
        project_root_from_manifest("a/.deebugee/project.toml", true, Some(".deebugee"), true),
        Ok(RootPlace::Grandparent)
    );
    assert_eq!(
        project_root_from_manifest("a/project.toml", true, Some("a"), true),
        Ok(RootPlace::Parent)
    );
    assert!(project_root_from_manifest("", false, None, false).is_err());
    assert!(project_root_from_manifest("x", true, Some(".deebugee"), false).is_err());
    assert_eq!(configured_notice("p.toml", 1), "Configured p.toml with 1 log source");
    assert_eq!(configured_notice("p.toml", 2), "Configured p.toml with 2 log sources");
}

#[test]
fn fingerprints_are_those_of_the_bytes() {
    assert_eq!(fingerprint(b""), "cbf29ce484222325");
    assert_eq!(fingerprint(b"a"), "af63dc4c8601ec8c");
    assert_eq!(fingerprint(b"foobar"), "85944171f73967e8");
    assert_eq!(stable_project_key("foobar"), "85944171f73967e8");
}
