use binary_preview::launcher::{
    binary_name, binary_path, create_dir_error, download_error, executable_error, find_asset,
    begin, missing_asset_error, pick_cached_binary, release_asset_name, unsupported_platform_error,
    version_dir, Architecture, BinaryPreviewExtension, CachedCandidate, Os, Release, Reply, Request,
    Search,
};

#[test]
fn release_assets_for_supported_platforms() {
    assert_eq!(
        release_asset_name(Os::Windows, Architecture::X8664),
        Some("binary-preview-lsp-windows-x86_64.exe")
    );
    assert_eq!(
        release_asset_name(Os::Linux, Architecture::X8664),
        Some("binary-preview-lsp-linux-x86_64")
    );
    assert_eq!(
        release_asset_name(Os::Mac, Architecture::X8664),
        Some("binary-preview-lsp-macos-x86_64")
    );
    assert_eq!(
        release_asset_name(Os::Mac, Architecture::Aarch64),
        Some("binary-preview-lsp-macos-aarch64")
    );
    assert_eq!(release_asset_name(Os::Linux, Architecture::Aarch64), None);
    assert_eq!(release_asset_name(Os::Windows, Architecture::X86), None);
    assert_eq!(release_asset_name(Os::Mac, Architecture::X86), None);
}

#[test]
fn install_locations() {
    assert_eq!(binary_name(Os::Windows), "binary-preview-lsp.exe");
    assert_eq!(binary_name(Os::Linux), "binary-preview-lsp");
    assert_eq!(binary_name(Os::Mac), "binary-preview-lsp");
    assert_eq!(version_dir("v0.3.1"), "binary-preview-lsp-v0.3.1");
    assert_eq!(
        binary_path("v0.3.1", Os::Windows),
        "binary-preview-lsp-v0.3.1/binary-preview-lsp.exe"
    );
    assert_eq!(
        binary_path("v0.3.1", Os::Linux),
        "binary-preview-lsp-v0.3.1/binary-preview-lsp"
    );
}

#[test]
fn finds_the_first_matching_asset() {
    let names: Vec<String> = ["a", "binary-preview-lsp-linux-x86_64", "b", "binary-preview-lsp-linux-x86_64"]
        .iter()
        .map(|s| s.to_string())
        .collect();
    assert_eq!(find_asset(&names, "binary-preview-lsp-linux-x86_64"), Some(1));
    assert_eq!(find_asset(&names, "b"), Some(2));
    assert_eq!(find_asset(&names, "c"), None);
    assert_eq!(find_asset(&Vec::new(), "a"), None);
}

#[test]
fn error_messages() {
    assert_eq!(
        missing_asset_error("v1.0.0", "binary-preview-lsp-linux-x86_64"),
        "release v1.0.0 has no asset named binary-preview-lsp-linux-x86_64"
    );
    assert_eq!(
        create_dir_error("binary-preview-lsp-v1", "denied"),
        "failed to create binary-preview-lsp-v1: denied"
    );
    assert_eq!(download_error("asset", "timeout"), "failed to download asset: timeout");
    assert_eq!(
        executable_error("dir/binary-preview-lsp", "denied"),
        "failed to make dir/binary-preview-lsp executable: denied"
    );
}

fn candidate(dir_name: &str, is_file: bool, modified: i128) -> CachedCandidate {
    CachedCandidate {
        dir_name: dir_name.to_string(),
        is_file,
        modified,
    }
}

#[test]
fn picks_the_newest_cached_server() {
    let candidates = vec![
        candidate("binary-preview-lsp-v1", true, 10),
        candidate("binary-preview-lsp-v2", true, 30),
        candidate("other-v3", true, 99),
        candidate("binary-preview-lsp-v4", false, 50),
        candidate("binary-preview-lsp-v5", true, 20),
    ];
    assert_eq!(pick_cached_binary(&candidates), Some(1));
}

#[test]
fn equally_recent_servers_pick_the_last() {
    let candidates = vec![
        candidate("binary-preview-lsp-a", true, 7),
        candidate("binary-preview-lsp-b", true, 7),
        candidate("binary-preview-lsp-c", true, 3),
    ];
    assert_eq!(pick_cached_binary(&candidates), Some(1));
}

#[test]
fn no_usable_cached_server() {
    let candidates = vec![
        candidate("binary-preview-lsp", true, 7),
        candidate("binary-preview-lsp-x", false, 8),
        candidate("lsp-binary-preview-", true, 9),
    ];
    assert_eq!(pick_cached_binary(&candidates), None);
    assert_eq!(pick_cached_binary(&Vec::new()), None);
}

fn finished(step: (Search, Request)) -> Result<String, String> {
    match step {
        (Search::Done, Request::Finish(result)) => result,
        _ => panic!("the search should have finished"),
    }
}

fn release(version: &str, names: &[&str]) -> Release {
    Release {
        version: version.to_string(),
        asset_names: names.iter().map(|s| s.to_string()).collect(),
    }
}

#[test]
fn uses_a_server_on_path_first() {
    let mut extension = BinaryPreviewExtension::new();
    let (search, request) = begin(Os::Linux, Architecture::X8664);
    assert!(matches!(request, Request::LookOnPath));
    let result = finished(extension.advance(
        search,
        Reply::OnPath(Some("/usr/bin/binary-preview-lsp".to_string())),
    ));
    assert_eq!(result, Ok("/usr/bin/binary-preview-lsp".to_string()));
    assert_eq!(extension.cached_binary_path, None);
}

#[test]
fn installs_the_release_asset_and_reuses_it() {
    let mut extension = BinaryPreviewExtension::new();
    let (search, _) = begin(Os::Linux, Architecture::X8664);
    let (search, request) = extension.advance(search, Reply::OnPath(None));
    assert!(matches!(request, Request::FetchLatestRelease));
    let (search, request) = extension.advance(
        search,
        Reply::LatestRelease(Ok(release(
            "v1.2.0",
            &["binary-preview-lsp-macos-aarch64", "binary-preview-lsp-linux-x86_64"],
        ))),
    );
    assert!(matches!(&request, Request::CheckInstalled { path }
        if path == "binary-preview-lsp-v1.2.0/binary-preview-lsp"));
    let (search, request) = extension.advance(search, Reply::IsFile(false));
    assert!(matches!(&request, Request::CreateDir { dir } if dir == "binary-preview-lsp-v1.2.0"));
    let (search, request) = extension.advance(search, Reply::DirCreated(Ok(())));
    assert!(matches!(&request, Request::Download { asset: 1, path }
        if path == "binary-preview-lsp-v1.2.0/binary-preview-lsp"));
    let (search, request) = extension.advance(search, Reply::Downloaded(Ok(())));
    assert!(matches!(&request, Request::MakeExecutable { path }
        if path == "binary-preview-lsp-v1.2.0/binary-preview-lsp"));
    let result = finished(extension.advance(search, Reply::MadeExecutable(Ok(()))));
    assert_eq!(result, Ok("binary-preview-lsp-v1.2.0/binary-preview-lsp".to_string()));
    assert_eq!(
        extension.cached_binary_path,
        Some("binary-preview-lsp-v1.2.0/binary-preview-lsp".to_string())
    );

    let (search, _) = begin(Os::Linux, Architecture::X8664);
    let result = finished(extension.advance(search, Reply::OnPath(None)));
    assert_eq!(result, Ok("binary-preview-lsp-v1.2.0/binary-preview-lsp".to_string()));
}

#[test]
fn an_installed_asset_is_not_downloaded_again() {
    let mut extension = BinaryPreviewExtension::new();
    let (search, _) = begin(Os::Windows, Architecture::X8664);
    let (search, _) = extension.advance(search, Reply::OnPath(None));
    let (search, _) = extension.advance(
        search,
        Reply::LatestRelease(Ok(release("v2", &["binary-preview-lsp-windows-x86_64.exe"]))),
    );
    let result = finished(extension.advance(search, Reply::IsFile(true)));
    assert_eq!(result, Ok("binary-preview-lsp-v2/binary-preview-lsp.exe".to_string()));
}

#[test]
fn falls_back_to_an_installed_server_when_offline() {
    let mut extension = BinaryPreviewExtension::new();
    let (search, _) = begin(Os::Mac, Architecture::Aarch64);
    let (search, _) = extension.advance(search, Reply::OnPath(None));
    let (search, request) =
        extension.advance(search, Reply::LatestRelease(Err("offline".to_string())));
    assert!(matches!(request, Request::FindInstalled { binary_name: "binary-preview-lsp" }));
    let result = finished(extension.advance(
        search,
        Reply::Installed(Some("binary-preview-lsp-v1/binary-preview-lsp".to_string())),
    ));
    assert_eq!(result, Ok("binary-preview-lsp-v1/binary-preview-lsp".to_string()));
    assert_eq!(
        extension.cached_binary_path,
        Some("binary-preview-lsp-v1/binary-preview-lsp".to_string())
    );

    let mut fresh = BinaryPreviewExtension::new();
    let (search, _) = begin(Os::Mac, Architecture::Aarch64);
    let (search, _) = fresh.advance(search, Reply::OnPath(None));
    let (search, _) = fresh.advance(search, Reply::LatestRelease(Err("offline".to_string())));
    let result = finished(fresh.advance(search, Reply::Installed(None)));
    assert_eq!(result, Err("offline".to_string()));
    assert_eq!(fresh.cached_binary_path, None);
}

#[test]
fn search_errors() {
    let mut extension = BinaryPreviewExtension::new();
    let (search, _) = begin(Os::Linux, Architecture::Aarch64);
    let (search, _) = extension.advance(search, Reply::OnPath(None));
    let result = finished(extension.advance(search, Reply::LatestRelease(Ok(release("v1", &[])))));
    assert_eq!(
        result,
        Err("binary-preview-lsp does not support Os::Linux/Architecture::Aarch64".to_string())
    );

    let (search, _) = begin(Os::Linux, Architecture::X8664);
    let (search, _) = extension.advance(search, Reply::OnPath(None));
    let result = finished(extension.advance(
        search,
        Reply::LatestRelease(Ok(release("v1", &["binary-preview-lsp-macos-x86_64"]))),
    ));
    assert_eq!(
        result,
        Err("release v1 has no asset named binary-preview-lsp-linux-x86_64".to_string())
    );

    let failures: [(usize, Reply, &str); 3] = [
        (
            0,
            Reply::DirCreated(Err("denied".to_string())),
            "failed to create binary-preview-lsp-v1: denied",
        ),
        (
            1,
            Reply::Downloaded(Err("timeout".to_string())),
            "failed to download binary-preview-lsp-linux-x86_64: timeout",
        ),
        (
            2,
            Reply::MadeExecutable(Err("denied".to_string())),
            "failed to make binary-preview-lsp-v1/binary-preview-lsp executable: denied",
        ),
    ];
    for (stage, failure, message) in failures {
        let (mut search, _) = begin(Os::Linux, Architecture::X8664);
        (search, _) = extension.advance(search, Reply::OnPath(None));
        (search, _) = extension.advance(
            search,
            Reply::LatestRelease(Ok(release("v1", &["binary-preview-lsp-linux-x86_64"]))),
        );
        (search, _) = extension.advance(search, Reply::IsFile(false));
        if stage > 0 {
            (search, _) = extension.advance(search, Reply::DirCreated(Ok(())));
        }
        if stage > 1 {
            (search, _) = extension.advance(search, Reply::Downloaded(Ok(())));
        }
        assert_eq!(finished(extension.advance(search, failure)), Err(message.to_string()));
        assert_eq!(extension.cached_binary_path, None);
    }
}

#[test]
fn stages_accept_only_their_replies() {
    let (search, _) = begin(Os::Linux, Architecture::X8664);
    assert!(search.accepts(&Reply::OnPath(None)));
    assert!(!search.accepts(&Reply::IsFile(true)));
    assert!(!Search::Done.accepts(&Reply::OnPath(None)));
    assert_eq!(
        unsupported_platform_error(Os::Windows, Architecture::X86),
        "binary-preview-lsp does not support Os::Windows/Architecture::X86"
    );
}
