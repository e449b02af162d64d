use zed_mojom::launch::{
    after_lookup, binary_path_in, cached_binary, configured_binary, executable_name, find_asset,
    install_step, install_target, is_stale_version_dir, release_asset_name, str_eq, str_starts_with,
    version_dir_name, worktree_binary, worktree_binary_names, Architecture, BinarySettings, BinarySource,
    DownloadedFileType, InstallAction, InstallEvent, InstallState, InstallationStatus, Os, Release,
    ReleaseAsset, SourceStep, SERVER_NAME, SERVER_RELEASE_REPOSITORY,
};

fn release(version: &str, names: &[&str]) -> Release {
    Release {
        version: version.to_string(),
        assets: names
            .iter()
            .map(|n| ReleaseAsset { name: n.to_string(), download_url: format!("https://example.test/{n}") })
            .collect(),
    }
}

#[test]
fn executable_names() {
    assert_eq!(executable_name(Os::Windows), "mojom-lsp.exe");
    assert_eq!(executable_name(Os::Mac), "mojom-lsp");
    assert_eq!(executable_name(Os::Linux), "mojom-lsp");
    assert_eq!(SERVER_NAME, "mojom-lsp");
    assert_eq!(SERVER_RELEASE_REPOSITORY, "dsa28s/zed-mojom-language");
}

#[test]
fn release_asset_names_of_the_readme() {
    assert_eq!(
        release_asset_name(Os::Mac, Architecture::Aarch64),
        Ok(("mojom-lsp-aarch64-apple-darwin.tar.gz".to_string(), DownloadedFileType::GzipTar))
    );
    assert_eq!(
        release_asset_name(Os::Mac, Architecture::X8664),
        Ok(("mojom-lsp-x86_64-apple-darwin.tar.gz".to_string(), DownloadedFileType::GzipTar))
    );
    assert_eq!(
        release_asset_name(Os::Windows, Architecture::Aarch64),
        Ok(("mojom-lsp-aarch64-pc-windows-msvc.zip".to_string(), DownloadedFileType::Zip))
    );
    assert_eq!(
        release_asset_name(Os::Windows, Architecture::X8664),
        Ok(("mojom-lsp-x86_64-pc-windows-msvc.zip".to_string(), DownloadedFileType::Zip))
    );
}

#[test]
fn unsupported_platforms() {
    assert_eq!(
        release_asset_name(Os::Linux, Architecture::X8664),
        Err("unsupported Mojom LSP platform: Os::Linux".to_string())
    );
    assert_eq!(
        release_asset_name(Os::Mac, Architecture::X86),
        Err("unsupported Mojom LSP architecture: Architecture::X86".to_string())
    );
    assert_eq!(
        release_asset_name(Os::Linux, Architecture::X86),
        Err("unsupported Mojom LSP architecture: Architecture::X86".to_string())
    );
}

#[test]
fn version_directories() {
    assert_eq!(version_dir_name("v1.2.0"), "mojom-lsp-v1.2.0");
    assert_eq!(binary_path_in("mojom-lsp-v1.2.0", Os::Mac), "mojom-lsp-v1.2.0/mojom-lsp");
    assert_eq!(binary_path_in("mojom-lsp-v1.2.0", Os::Windows), "mojom-lsp-v1.2.0/mojom-lsp.exe");
    assert!(is_stale_version_dir("mojom-lsp-v1.1.0", "mojom-lsp-v1.2.0"));
    assert!(!is_stale_version_dir("mojom-lsp-v1.2.0", "mojom-lsp-v1.2.0"));
    assert!(!is_stale_version_dir("mojom-lsp", "mojom-lsp-v1.2.0"));
    assert!(!is_stale_version_dir("other-v1", "mojom-lsp-v1.2.0"));
}

#[test]
fn text_helpers() {
    assert!(str_starts_with("mojom-lsp-x", "mojom-lsp-"));
    assert!(!str_starts_with("mojom", "mojom-lsp-"));
    assert!(str_eq("\u{e9}t\u{e9}", "\u{e9}t\u{e9}"));
    assert!(!str_eq("a", "b"));
}

#[test]
fn assets_are_found_by_name() {
    let rel = release("v1", &["a.zip", "b.zip", "a.zip"]);
    assert_eq!(find_asset(&rel.assets, &"a.zip".to_string()), Some(0));
    assert_eq!(find_asset(&rel.assets, &"b.zip".to_string()), Some(1));
    assert_eq!(find_asset(&rel.assets, &"c.zip".to_string()), None);
}

#[test]
fn install_targets() {
    let rel = release("v2", &["mojom-lsp-aarch64-apple-darwin.tar.gz"]);
    let target = install_target(Os::Mac, Architecture::Aarch64, &rel).unwrap();
    assert_eq!(target.version_dir, "mojom-lsp-v2");
    assert_eq!(target.binary_path, "mojom-lsp-v2/mojom-lsp");
    assert_eq!(target.download_url, "https://example.test/mojom-lsp-aarch64-apple-darwin.tar.gz");
    assert_eq!(target.file_type, DownloadedFileType::GzipTar);
    assert_eq!(
        install_target(Os::Windows, Architecture::X8664, &rel).err(),
        Some(
            "no compatible Mojom LSP binary asset found for this platform; expected mojom-lsp-x86_64-pc-windows-msvc.zip"
                .to_string()
        )
    );
    assert_eq!(
        install_target(Os::Linux, Architecture::X8664, &rel).err(),
        Some("unsupported Mojom LSP platform: Os::Linux".to_string())
    );
}

#[test]
fn configured_binaries() {
    let env = vec![("K".to_string(), "V".to_string())];
    assert!(configured_binary(None, env.clone()).is_none());
    assert!(configured_binary(Some(BinarySettings { path: None, arguments: Some(vec!["x".to_string()]) }), env.clone()).is_none());
    let b = configured_binary(Some(BinarySettings { path: Some("/bin/lsp".to_string()), arguments: None }), env.clone()).unwrap();
    assert_eq!(b.path, "/bin/lsp");
    assert!(b.args.is_empty());
    assert_eq!(b.env, env);
    let b = configured_binary(
        Some(BinarySettings { path: Some("/bin/lsp".to_string()), arguments: Some(vec!["--stdio".to_string()]) }),
        Vec::new(),
    )
    .unwrap();
    assert_eq!(b.args, vec!["--stdio".to_string()]);
}

#[test]
fn worktree_and_cached_binaries() {
    assert_eq!(worktree_binary_names(Os::Windows), vec!["mojom-lsp.exe", "mojom-lsp"]);
    assert_eq!(worktree_binary_names(Os::Mac), vec!["mojom-lsp", "mojom-lsp"]);
    let b = worktree_binary(Some("/usr/bin/mojom-lsp".to_string()), vec![], vec![]).unwrap();
    assert_eq!(b.path, "/usr/bin/mojom-lsp");
    assert!(worktree_binary(None, vec![], vec![]).is_none());
    assert!(cached_binary(Some("p".to_string()), false, vec![]).is_none());
    assert!(cached_binary(None, true, vec![]).is_none());
    let c = cached_binary(Some("p".to_string()), true, vec![]).unwrap();
    assert_eq!(c.path, "p");
    assert!(c.env.is_empty());
}

#[test]
fn binary_sources_in_order() {
    match after_lookup(BinarySource::Configured, None) {
        SourceStep::Next(s) => assert_eq!(s, BinarySource::Worktree),
        SourceStep::Use(_) => panic!("nothing was found"),
    }
    match after_lookup(BinarySource::Worktree, None) {
        SourceStep::Next(s) => assert_eq!(s, BinarySource::Cached),
        SourceStep::Use(_) => panic!("nothing was found"),
    }
    match after_lookup(BinarySource::Cached, None) {
        SourceStep::Next(s) => assert_eq!(s, BinarySource::Install),
        SourceStep::Use(_) => panic!("nothing was found"),
    }
    let found = worktree_binary(Some("/x".to_string()), vec![], vec![]);
    match after_lookup(BinarySource::Worktree, found) {
        SourceStep::Use(b) => assert_eq!(b.path, "/x"),
        SourceStep::Next(_) => panic!("a binary was found"),
    }
}

fn step(os: Os, state: InstallState, event: InstallEvent) -> (InstallState, InstallAction) {
    install_step(os, Architecture::Aarch64, state, event)
}

#[test]
fn install_downloads_and_finishes() {
    let (s, a) = step(Os::Mac, InstallState::Start, InstallEvent::Done);
    assert!(matches!(a, InstallAction::SetStatus(InstallationStatus::CheckingForUpdate)));
    let (s, a) = step(Os::Mac, s, InstallEvent::Done);
    assert!(matches!(a, InstallAction::FetchLatestRelease));
    let rel = release("v3", &["mojom-lsp-aarch64-apple-darwin.tar.gz"]);
    let (s, a) = step(Os::Mac, s, InstallEvent::Fetched(Ok(rel)));
    match a {
        InstallAction::CheckExists(p) => assert_eq!(p, "mojom-lsp-v3/mojom-lsp"),
        other => panic!("unexpected {other:?}"),
    }
    let (s, a) = step(Os::Mac, s, InstallEvent::Exists(false));
    assert!(matches!(a, InstallAction::SetStatus(InstallationStatus::Downloading)));
    let (s, a) = step(Os::Mac, s, InstallEvent::Done);
    match a {
        InstallAction::Download { url, version_dir, file_type } => {
            assert_eq!(url, "https://example.test/mojom-lsp-aarch64-apple-darwin.tar.gz");
            assert_eq!(version_dir, "mojom-lsp-v3");
            assert_eq!(file_type, DownloadedFileType::GzipTar);
        },
        other => panic!("unexpected {other:?}"),
    }
    let (s, a) = step(Os::Mac, s, InstallEvent::Downloaded(Ok(())));
    assert!(matches!(a, InstallAction::CheckExists(_)));
    let (s, a) = step(Os::Mac, s, InstallEvent::Exists(true));
    match a {
        InstallAction::MakeExecutable(p) => assert_eq!(p, "mojom-lsp-v3/mojom-lsp"),
        other => panic!("unexpected {other:?}"),
    }
    let (s, a) = step(Os::Mac, s, InstallEvent::Marked(Ok(())));
    match a {
        InstallAction::CleanupOldVersions(d) => assert_eq!(d, "mojom-lsp-v3"),
        other => panic!("unexpected {other:?}"),
    }
    let (s, a) = step(Os::Mac, s, InstallEvent::Done);
    assert!(matches!(s, InstallState::Finished));
    match a {
        InstallAction::Finish(p) => assert_eq!(p, "mojom-lsp-v3/mojom-lsp"),
        other => panic!("unexpected {other:?}"),
    }
}

#[test]
fn install_reuses_existing_binary() {
    let rel = release("v3", &["mojom-lsp-aarch64-pc-windows-msvc.zip"]);
    let (s, a) = step(Os::Windows, InstallState::FetchingRelease, InstallEvent::Fetched(Ok(rel)));
    match a {
        InstallAction::CheckExists(p) => assert_eq!(p, "mojom-lsp-v3/mojom-lsp.exe"),
        other => panic!("unexpected {other:?}"),
    }
    let (s, a) = step(Os::Windows, s, InstallEvent::Exists(true));
    assert!(matches!(s, InstallState::Finished));
    assert!(matches!(a, InstallAction::Finish(p) if p == "mojom-lsp-v3/mojom-lsp.exe"));
}

#[test]
fn windows_skips_marking_executable() {
    let rel = release("v4", &["mojom-lsp-aarch64-pc-windows-msvc.zip"]);
    let target = install_target(Os::Windows, Architecture::Aarch64, &rel).unwrap();
    let (_, a) = step(Os::Windows, InstallState::CheckingDownload(target), InstallEvent::Exists(true));
    assert!(matches!(a, InstallAction::CleanupOldVersions(d) if d == "mojom-lsp-v4"));
}

#[test]
fn install_failures() {
    let (s, a) = step(Os::Mac, InstallState::FetchingRelease, InstallEvent::Fetched(Err("offline".to_string())));
    assert!(matches!(s, InstallState::Finished));
    assert!(matches!(a, InstallAction::Fail(m) if m == "failed to fetch latest Mojom LSP release: offline"));

    let (_, a) = step(Os::Mac, InstallState::FetchingRelease, InstallEvent::Fetched(Ok(release("v1", &[]))));
    assert!(matches!(a, InstallAction::Fail(m) if m
        == "no compatible Mojom LSP binary asset found for this platform; expected mojom-lsp-aarch64-apple-darwin.tar.gz"));

    let rel = release("v5", &["mojom-lsp-aarch64-apple-darwin.tar.gz"]);
    let target = install_target(Os::Mac, Architecture::Aarch64, &rel).unwrap();
    let (s, a) = step(Os::Mac, InstallState::Downloading(target), InstallEvent::Downloaded(Err("404".to_string())));
    assert!(matches!(a, InstallAction::RemoveDir(d) if d == "mojom-lsp-v5"));
    let (_, a) = step(Os::Mac, s, InstallEvent::Done);
    assert!(matches!(a, InstallAction::Fail(m) if m == "failed to download Mojom LSP: 404"));

    let target = install_target(Os::Mac, Architecture::Aarch64, &rel).unwrap();
    let (s, a) = step(Os::Mac, InstallState::CheckingDownload(target), InstallEvent::Exists(false));
    assert!(matches!(a, InstallAction::RemoveDir(_)));
    let (_, a) = step(Os::Mac, s, InstallEvent::Done);
    assert!(matches!(a, InstallAction::Fail(m) if m == "downloaded Mojom LSP archive did not contain mojom-lsp at its root"));

    let target = install_target(Os::Mac, Architecture::Aarch64, &rel).unwrap();
    let (s, a) = step(Os::Mac, InstallState::MarkingExecutable(target), InstallEvent::Marked(Err("denied".to_string())));
    assert!(matches!(a, InstallAction::RemoveDir(_)));
    let (_, a) = step(Os::Mac, s, InstallEvent::Done);
    assert!(matches!(a, InstallAction::Fail(m) if m == "failed to mark Mojom LSP binary executable: denied"));
}

#[test]
fn failed_runs_end_with_the_failure_and_remember_nothing() {
    let mut cache: Option<String> = Some("mojom-lsp-v1/mojom-lsp".to_string());
    let mut state = InstallState::Start;
    let mut events = vec![
        InstallEvent::Done,
        InstallEvent::Done,
        InstallEvent::Fetched(Ok(release("v6", &["mojom-lsp-aarch64-apple-darwin.tar.gz"]))),
        InstallEvent::Exists(false),
        InstallEvent::Done,
        InstallEvent::Downloaded(Err("timeout".to_string())),
        InstallEvent::Done,
    ]
    .into_iter();
    let mut last_was_end = false;
    while let Some(event) = events.next() {
        assert!(!last_was_end, "a step followed the end of the run");
        let (next, action) = step(Os::Mac, state, event);
        state = next;
        match action {
            InstallAction::Finish(p) => {
                cache = Some(p);
                last_was_end = true;
            },
            InstallAction::Fail(m) => {
                assert_eq!(m, "failed to download Mojom LSP: timeout");
                last_was_end = true;
            },
            _ => {},
        }
    }
    assert!(last_was_end);
    assert!(matches!(state, InstallState::Finished));
    assert_eq!(cache, Some("mojom-lsp-v1/mojom-lsp".to_string()));
}
