use ninja_linter::updater::{
    accepts_update, check_release, find_asset_url, is_newer, parse_semver, platform_identifier,
    Asset, ReleaseCheck, RepoRelease, UpdateError,
};

fn linux_platform() -> &'static str {
    platform_identifier("linux", "x86_64").unwrap()
}

// --- parse_semver ---

#[test]
fn test_parse_semver_with_v_prefix() {
    assert_eq!(parse_semver("v0.8.0"), Some((0, 8, 0)));
}

#[test]
fn test_parse_semver_without_prefix() {
    assert_eq!(parse_semver("1.10.3"), Some((1, 10, 3)));
}

#[test]
fn test_parse_semver_invalid() {
    assert_eq!(parse_semver("ERROR"), None);
    assert_eq!(parse_semver("v1.2"), None);
}

#[test]
fn parse_semver_edge_cases() {
    // every leading `v` goes, a sign is what `u64::from_str` accepts
    assert_eq!(parse_semver("vv2.0.1"), Some((2, 0, 1)));
    assert_eq!(parse_semver("+1.2.3"), Some((1, 2, 3)));
    assert_eq!(parse_semver("1.2.3.4"), None);
    assert_eq!(parse_semver("1..3"), None);
    assert_eq!(parse_semver("1.2.-3"), None);
    assert_eq!(parse_semver("1.2.3 "), None);
    assert_eq!(parse_semver("18446744073709551615.0.0"), Some((u64::MAX, 0, 0)));
    assert_eq!(parse_semver("18446744073709551616.0.0"), None);
}

// --- is_newer ---

#[test]
fn test_is_newer_detects_update() {
    assert!(is_newer("v0.9.0", "v0.8.0"));
}

#[test]
fn test_is_newer_same_version() {
    assert!(!is_newer("v0.8.0", "v0.8.0"));
}

#[test]
fn test_is_newer_older_does_not_trigger() {
    assert!(!is_newer("v0.7.0", "v0.8.0"));
}

#[test]
fn test_is_newer_double_digit_minor() {
    // string comparison would fail here: "v0.10.0" < "v0.9.0" lexicographically
    assert!(is_newer("v0.10.0", "v0.9.0"));
}

#[test]
fn test_is_newer_major_bump() {
    assert!(is_newer("v1.0.0", "v0.99.99"));
}

#[test]
fn is_newer_falls_back_to_text_order() {
    assert!(is_newer("beta", "alpha"));
    assert!(!is_newer("alpha", "beta"));
    assert!(is_newer("v1.2", "v1.10"));
    assert!(!is_newer("same", "same"));
    assert!(is_newer("v1.0.0", "ERROR") == ("v1.0.0" > "ERROR"));
}

// --- platform_identifier ---

#[test]
fn test_platform_identifier_returns_known_value() {
    let known = [
        "x86_64-unknown-linux-gnu",
        "aarch64-unknown-linux-gnu",
        "x86_64-apple-darwin",
        "aarch64-apple-darwin",
        "x86_64-pc-windows-msvc",
    ];
    let pairs = [
        ("linux", "x86_64"),
        ("linux", "aarch64"),
        ("macos", "x86_64"),
        ("macos", "aarch64"),
        ("windows", "x86_64"),
    ];
    for (os, arch) in pairs {
        let platform = platform_identifier(os, arch).unwrap();
        assert!(known.contains(&platform), "unexpected platform: {}", platform);
    }
}

#[test]
fn platform_identifier_unsupported() {
    assert_eq!(platform_identifier("windows", "aarch64"), None);
    assert_eq!(platform_identifier("freebsd", "x86_64"), None);
    assert_eq!(platform_identifier("macos", "aarch64"), Some("aarch64-apple-darwin"));
}

// --- find_asset_url ---

#[test]
fn test_find_asset_url_found() {
    let platform = linux_platform();
    let release = RepoRelease {
        tag_name: String::from("v1.0.0"),
        assets: vec![Asset {
            name: format!("ninja-linter-{}.tar.gz", platform),
            browser_download_url: String::from("https://example.com/asset"),
        }],
    };
    let url = find_asset_url(&release, platform).ok().unwrap();
    assert_eq!(url, "https://example.com/asset");
}

#[test]
fn test_find_asset_url_not_found() {
    let release = RepoRelease {
        tag_name: String::from("v1.0.0"),
        assets: vec![Asset {
            name: String::from("ninja-linter-unknown-platform.tar.gz"),
            browser_download_url: String::from("https://example.com/asset"),
        }],
    };
    assert!(find_asset_url(&release, linux_platform()).is_err());
}

#[test]
fn test_find_asset_url_empty_assets() {
    let release = RepoRelease { tag_name: String::from("v1.0.0"), assets: vec![] };
    assert!(find_asset_url(&release, linux_platform()).is_err());
}

#[test]
fn test_find_asset_url_picks_correct_from_multiple() {
    let platform = linux_platform();
    let release = RepoRelease {
        tag_name: String::from("v1.0.0"),
        assets: vec![
            Asset {
                name: String::from("ninja-linter-other-platform.tar.gz"),
                browser_download_url: String::from("https://example.com/wrong"),
            },
            Asset {
                name: format!("ninja-linter-{}.tar.gz", platform),
                browser_download_url: String::from("https://example.com/correct"),
            },
        ],
    };
    let url = find_asset_url(&release, platform).ok().unwrap();
    assert_eq!(url, "https://example.com/correct");
}

#[test]
fn find_asset_url_takes_the_first_match_and_names_the_platform() {
    let platform = linux_platform();
    let release = RepoRelease {
        tag_name: String::from("v1.0.0"),
        assets: vec![
            Asset {
                name: format!("a-{}", platform),
                browser_download_url: String::from("https://example.com/first"),
            },
            Asset {
                name: format!("b-{}", platform),
                browser_download_url: String::from("https://example.com/second"),
            },
        ],
    };
    assert_eq!(find_asset_url(&release, platform).ok().unwrap(), "https://example.com/first");
    match find_asset_url(&release, "sparc-sun-solaris") {
        Err(e) => {
            assert!(matches!(&e, UpdateError::AssetNotFound { platform } if platform == "sparc-sun-solaris"));
            assert_eq!(
                e.message(),
                "no se encontró un asset para la plataforma 'sparc-sun-solaris'"
            );
        }
        Ok(_) => panic!("no asset should match"),
    }
}

// --- version check and answer ---

#[test]
fn check_release_outcomes() {
    assert_eq!(check_release("ERROR", "v0.7.3"), ReleaseCheck::LookupFailed);
    assert_eq!(check_release("v0.8.0", "v0.7.3"), ReleaseCheck::UpdateAvailable);
    assert_eq!(check_release("v0.7.3", "v0.7.3"), ReleaseCheck::UpToDate);
    assert_eq!(check_release("v0.7.0", "v0.7.3"), ReleaseCheck::UpToDate);
    assert_eq!(check_release("ERRORS", "v0.7.3"), ReleaseCheck::UpToDate);
}

#[test]
fn accepts_update_answers() {
    assert!(accepts_update("y"));
    assert!(accepts_update("Y\n"));
    assert!(accepts_update("  y  "));
    assert!(!accepts_update("yes"));
    assert!(!accepts_update("n"));
    assert!(!accepts_update(""));
    assert!(!accepts_update("\n"));
}

#[test]
fn version_order_laws_on_examples() {
    // a leading `v` names the same version
    assert_eq!(parse_semver("v1.2.3"), parse_semver("1.2.3"));
    // newer is never reflexive, and at most one way round
    for (a, b) in [("v0.9.0", "v0.8.0"), ("1.0.0", "v0.99.99"), ("alpha", "beta")] {
        assert!(!(is_newer(a, b) && is_newer(b, a)));
        assert!(!is_newer(a, a));
    }
    // transitive on versions
    assert!(is_newer("v2.0.0", "v1.5.0") && is_newer("v1.5.0", "v1.4.9"));
    assert!(is_newer("v2.0.0", "v1.4.9"));
}

#[test]
fn version_text_reads_back() {
    for (a, b, c) in [(0u64, 0u64, 0u64), (1, 10, 3), (42, 7, 1000), (u64::MAX, 9, u64::MAX)] {
        assert_eq!(parse_semver(&format!("{}.{}.{}", a, b, c)), Some((a, b, c)));
        assert_eq!(parse_semver(&format!("v{}.{}.{}", a, b, c)), Some((a, b, c)));
    }
}
