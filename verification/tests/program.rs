use bksync::cli::{Cli, Commands, DEFAULT_CONFIG, DEFAULT_PROFILE};
use bksync::config::{
    default_concurrency, default_include, expand_path, Config, ConfigError, Found, Profile,
    DEFAULT_CONFIG_TEMPLATE,
};
use bksync::error::SyncError;
use bksync::filter::{Filter, FilterError};
use bksync::keys::KeyMap;
use bksync::progress::Progress;
use bksync::run::{
    assemble, find_profile, log_directive, merge_filters, missing_profile, outcome, prepare, refresh_secs,
    RunError,
};
use bksync::sync::{Notice, NoticeKind};

fn list(texts: &[&str]) -> Vec<String> {
    texts.iter().map(|t| t.to_string()).collect()
}

fn profile() -> Profile {
    Profile {
        endpoint: "https://s3.example.com".to_string(),
        region: "us-east-1".to_string(),
        bucket: "my-bucket".to_string(),
        access_key: "a".to_string(),
        secret_key: "s".to_string(),
        local_dir: "/home/user/s3sync".to_string(),
        concurrency: 4,
        includes: list(&["*.md"]),
        excludes: list(&["*.tmp"]),
        disable_path_normalization: false,
    }
}

fn cli(command: Commands) -> Cli {
    Cli {
        config: DEFAULT_CONFIG.to_string(),
        profile: DEFAULT_PROFILE.to_string(),
        verbose: 0,
        dry_run: false,
        summary: false,
        concurrency: None,
        command,
    }
}

#[test]
fn home_takes_the_place_of_the_tilde() {
    match expand_path("~/.config/x", Some("/home/u")) {
        Ok(path) => assert_eq!(path, "/home/u/.config/x"),
        Err(_) => panic!("home is known"),
    }
    match expand_path("/etc/~x", None) {
        Ok(path) => assert_eq!(path, "/etc/~x"),
        Err(_) => panic!("home is not needed"),
    }
    match expand_path("", None) {
        Ok(path) => assert_eq!(path, ""),
        Err(_) => panic!("home is not needed"),
    }
    match expand_path("~", None) {
        Err(ConfigError::NoHome) => {}
        _ => panic!("home is not known"),
    }
}

#[test]
fn missing_configuration_is_explained() {
    let message = |found: Found| match Config::load("/c.toml", found) {
        Err(error) => error.message(),
        Ok(_) => panic!("there is no configuration"),
    };
    let cause = || "denied".to_string();
    assert_eq!(
        message(Found::NoDirectory { directory: "/d".to_string(), cause: cause() }),
        "Failed to create config directory '/d': denied"
    );
    assert_eq!(
        message(Found::NotWritten { cause: cause() }),
        "Failed to write default config to '/c.toml': denied"
    );
    assert_eq!(
        message(Found::Created),
        "Default config created at '/c.toml'. Edit it with your credentials and run again."
    );
    assert_eq!(
        message(Found::NotRead { cause: cause() }),
        "Failed to read config file '/c.toml': denied"
    );
    assert_eq!(
        message(Found::NotParsed { cause: cause() }),
        "Failed to parse config file '/c.toml': denied"
    );
    assert_eq!(ConfigError::NoHome.message(), "HOME environment variable not set");
}

#[test]
fn profile_is_found_by_name() {
    let mut profiles: KeyMap<Profile> = KeyMap::new();
    profiles.insert("default".to_string(), profile());
    let config = match Config::load("/c.toml", Found::Parsed(Config { profile: profiles })) {
        Ok(config) => config,
        Err(_) => panic!("there is a configuration"),
    };
    match find_profile(&config, "default") {
        Ok(found) => assert_eq!(found.bucket, "my-bucket"),
        Err(_) => panic!("the profile is there"),
    }
    match find_profile(&config, "production") {
        Err(RunError::NoProfile { name }) => assert_eq!(name, "production"),
        _ => panic!("the profile is not there"),
    }
    assert_eq!(missing_profile("x"), "Profile 'x' not found in config");
}

#[test]
fn profile_has_defaults() {
    assert_eq!(default_concurrency(), 10);
    assert_eq!(default_include(), vec!["**/*"]);
    assert!(DEFAULT_CONFIG_TEMPLATE.starts_with("[profile.default]\nendpoint = \"https://"));
    assert!(DEFAULT_CONFIG_TEMPLATE.contains("\nconcurrency = 10\n"));
    assert!(DEFAULT_CONFIG_TEMPLATE.ends_with("double encoding\n"));
    assert_eq!(DEFAULT_CONFIG, "~/.config/bksync/config.toml");
    assert_eq!(DEFAULT_PROFILE, "default");
}

#[test]
fn command_line_patterns_override_the_profile() {
    let ours = list(&["a", "b"]);
    assert_eq!(merge_filters(&ours, &[]), ours);
    assert_eq!(merge_filters(&ours, &list(&["c"])), vec!["c"]);
    assert!(merge_filters(&[], &[]).is_empty());
}

#[test]
fn operation_goes_by_the_command_line_first() {
    let mut asked = cli(Commands::Push {
        path: Some("backups/".to_string()),
        includes: list(&["*.tar.gz"]),
        excludes: vec![],
        delete: true,
    });
    asked.concurrency = Some(2);
    match prepare(&asked, &profile()) {
        Ok(run) => {
            assert_eq!(run.concurrency, 2);
            assert_eq!(run.includes, vec!["*.tar.gz"]);
            assert_eq!(run.excludes, vec!["*.tmp"]);
            assert_eq!(run.prefix.as_deref(), Some("backups/"));
            assert!(run.delete);
            assert!(run.filter.matches("x.tar.gz"));
            assert!(!run.filter.matches("x.md"));
        }
        Err(_) => panic!("the operation is in order"),
    }
}

#[test]
fn operation_goes_by_the_profile_otherwise() {
    for command in [
        Commands::Pull { path: None, includes: vec![], excludes: vec![], delete: false },
        Commands::Sync { path: None, includes: vec![], excludes: vec![], delete: false },
        Commands::Daemon {
            path: None,
            includes: vec![],
            excludes: vec![],
            delete: false,
            refresh_minutes: 30,
            debounce_ms: 1000,
        },
    ] {
        match prepare(&cli(command), &profile()) {
            Ok(run) => {
                assert_eq!(run.concurrency, 4);
                assert!(run.prefix.is_none() && !run.delete);
                assert!(run.filter.matches("x.md") && !run.filter.matches("x.tar.gz"));
            }
            Err(_) => panic!("the operation is in order"),
        }
    }
}

#[test]
fn operation_with_bad_patterns_is_refused() {
    let asked = cli(Commands::Sync {
        path: None,
        includes: list(&["a["]),
        excludes: vec![],
        delete: false,
    });
    match prepare(&asked, &profile()) {
        Err(RunError::Filter { cause: FilterError::Pattern { pattern, .. } }) => {
            assert_eq!(pattern, "a[");
        }
        _ => panic!("the pattern is no glob"),
    }
}

#[test]
fn log_grows_with_verbosity() {
    assert_eq!(log_directive(0), "bksync=info");
    assert_eq!(log_directive(1), "bksync=debug");
    assert_eq!(log_directive(2), "bksync=trace");
    assert_eq!(log_directive(255), "bksync=trace");
}

#[test]
fn refresh_is_counted_in_seconds() {
    assert_eq!(refresh_secs(30), 1800);
    assert_eq!(refresh_secs(0), 0);
}

#[test]
fn errors_are_counted_at_the_end() {
    let error = SyncError::new("a/b", "refused".to_string());
    assert_eq!(error.text(), "a/b: refused");
    assert!(outcome(&vec![]).is_ok());
    assert_eq!(outcome(&vec![error.clone(), error]), Err("Sync completed with 2 errors".to_string()));
}

#[test]
fn progress_counts_and_names_files() {
    let mut progress = Progress::new();
    assert_eq!((progress.total, progress.current, progress.position), (0, 0, 0));
    progress.set_total(5);
    progress.start_operation("Pushing to S3", "/d -> bucket");
    assert_eq!(progress.message, "Pushing to S3 /d -> bucket...");
    progress.file_skipped("a");
    assert_eq!(progress.message, "[ ] a");
    progress.file_downloaded("b");
    assert_eq!(progress.message, "[v] b");
    progress.file_uploaded("c");
    assert_eq!(progress.message, "[^] c");
    progress.file_deleted("d");
    assert_eq!(progress.message, "[x] d");
    assert_eq!((progress.current, progress.position), (4, 4));
    progress.summary("Push complete");
    assert_eq!(progress.message, "Push complete -- 4 files");
    assert_eq!((progress.position, progress.finished), (5, true));
    progress.start_operation("Again", "x");
    assert_eq!((progress.total, progress.current, progress.finished), (5, 0, false));
}

#[test]
fn each_report_counts_one_file() {
    let mut progress = Progress::new();
    let notices = vec![
        Notice { kind: NoticeKind::Skipped, key: "a".to_string() },
        Notice { kind: NoticeKind::Deleted, key: "b".to_string() },
    ];
    progress.report_all(&notices);
    assert_eq!((progress.current, progress.message.as_str()), (2, "[x] b"));
    progress.report(NoticeKind::Uploaded, "c");
    assert_eq!((progress.position, progress.message.as_str()), (3, "[^] c"));
}

#[test]
fn operation_is_assembled_around_its_filter() {
    let asked = cli(Commands::Pull {
        path: Some("docs/".to_string()),
        includes: vec![],
        excludes: vec![],
        delete: true,
    });
    let made = Filter::new(&list(&["*.md"]), &[]);
    match assemble(&asked, &profile(), list(&["*.md"]), vec![], made) {
        Ok(run) => {
            assert_eq!((run.concurrency, run.delete), (4, true));
            assert_eq!(run.prefix.as_deref(), Some("docs/"));
            assert_eq!(run.includes, vec!["*.md"]);
            assert!(run.filter.matches("a.md"));
        }
        Err(_) => panic!("the filter was made"),
    }
    let failed = Filter::new(&list(&["a["]), &[]);
    assert!(matches!(
        assemble(&asked, &profile(), vec![], vec![], failed),
        Err(RunError::Filter { cause: FilterError::Pattern { .. } })
    ));
}
