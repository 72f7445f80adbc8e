//! Versions, specifiers, configuration, retry bookkeeping, the store
//! and install sentinels, and the memoization table.

use cotton::config::{select_registry, package_url, AuthSource, Registry, RetryState};
use cotton::kmap::KeyMap;
use cotton::manifest::{add_spec_text, remove_dependency};
use cotton::memo::{ClaimOutcome, MemoTable};
use cotton::package::PlatformMap;
use cotton::progress::{log_progress, log_verbose, log_warning};
use cotton::semver::{is_range, is_url, parse_version, range_satisfies};
use cotton::specifier::{PackageSpecifier, VersionSpecifier};
use cotton::store::{install_marker_name, InstallModel, StoreModel};
use cotton::util::{get_node_cpu, get_node_os};
use cotton::version::Version;

#[test]
fn version_parse_and_order() {
    let v = parse_version("1.2.0-beta").expect("parses");
    assert_eq!(v.major, 1);
    assert_eq!(v.minor, 2);
    assert_eq!(v.patch, 0);
    assert!(v.is_prerelease());
    assert_eq!(v.to_text(), "1.2.0-beta");

    let stable = parse_version("1.2.0").expect("parses");
    assert!(!stable.is_prerelease());
    // pre-releases sort below the stable release of the same triple
    assert!(v.lt_version(&stable));
    assert!(!stable.lt_version(&v));

    let bigger = Version::new(2, 0, 0);
    assert!(stable.lt_version(&bigger));

    let a = parse_version("1.0.0-alpha.2").expect("parses");
    let b = parse_version("1.0.0-alpha.10").expect("parses");
    // numeric pre-release identifiers compare numerically
    assert!(a.lt_version(&b));

    assert!(parse_version("not a version").is_none());
}

#[test]
fn specifier_parsing_follows_priority() {
    assert!(is_range("^1.0.0"));
    assert!(!is_range("latest"));
    assert!(is_url("https://example.invalid/pkg.tgz"));

    match VersionSpecifier::parse("^1.0.0") {
        VersionSpecifier::Range(t) => assert_eq!(t, "^1.0.0"),
        _ => panic!("expected a range"),
    }
    match VersionSpecifier::parse("npm:real-name@^1.0.0") {
        VersionSpecifier::Prefixed(p) => {
            assert_eq!(p.prefix, "npm");
            assert_eq!(p.rest, "real-name@^1.0.0");
        }
        _ => panic!("expected an alias"),
    }
    match VersionSpecifier::parse("https://example.invalid/pkg.tgz") {
        VersionSpecifier::DirectUrl(u) => assert_eq!(u, "https://example.invalid/pkg.tgz"),
        _ => panic!("expected a direct URL"),
    }
    match VersionSpecifier::parse("latest") {
        VersionSpecifier::Other(t) => assert_eq!(t, "latest"),
        _ => panic!("expected a tag"),
    }
}

#[test]
fn specifier_satisfaction() {
    let spec = VersionSpecifier::parse("^1.0.0");
    assert!(spec.satisfies(&Version::new(1, 2, 0)));
    assert!(!spec.satisfies(&Version::new(2, 0, 0)));
    // a pre-release does not satisfy a plain caret range
    let pre = parse_version("1.2.0-beta").expect("parses");
    assert!(!spec.satisfies(&pre));
    assert!(range_satisfies("^1.0.0", &Version::new(1, 9, 9)));

    // an alias delegates to its inner range
    let alias = VersionSpecifier::parse("npm:real-name@^2.0.0");
    assert!(alias.satisfies(&Version::new(2, 1, 0)));
    assert!(!alias.satisfies(&Version::new(3, 0, 0)));

    // tags and URLs are satisfied by whatever resolution pinned
    assert!(VersionSpecifier::parse("latest").satisfies(&Version::new(9, 9, 9)));
    assert!(
        VersionSpecifier::parse("https://example.invalid/pkg.tgz").satisfies(&Version::new(0, 0, 1))
    );
}

#[test]
fn request_text_round_trip() {
    let req = PackageSpecifier::parse("left-pad!^1.0.0").expect("parses");
    assert_eq!(req.name, "left-pad");
    assert!(!req.optional);
    assert_eq!(req.to_text(), "left-pad!^1.0.0");

    let opt = PackageSpecifier::parse("fsevents!^2.0.0?").expect("parses");
    assert!(opt.optional);
    assert_eq!(opt.to_text(), "fsevents!^2.0.0?");

    let back = PackageSpecifier::parse(&opt.to_text()).expect("parses");
    assert!(back.eq_req(&opt));

    assert!(PackageSpecifier::parse("no-separator").is_none());
}

#[test]
fn platform_maps() {
    let empty = PlatformMap { tokens: vec![] };
    assert!(empty.is_supported("darwin"));

    let linux_only = PlatformMap { tokens: vec!["linux".to_string()] };
    assert!(linux_only.is_supported("linux"));
    assert!(!linux_only.is_supported("darwin"));

    let not_win = PlatformMap { tokens: vec!["linux".to_string(), "!win32".to_string()] };
    assert!(not_win.is_supported("linux"));
    assert!(!not_win.is_supported("win32"));

    assert_eq!(linux_only.allowed(), vec!["linux".to_string()]);
    assert_eq!(not_win.blocked(), vec!["win32".to_string()]);
}

#[test]
fn registry_selection_and_auth() {
    // the scope-less registry comes first in the list, yet a scoped
    // match takes priority; the scope-less one serves only the rest
    let regs = vec![
        Registry { url: "https://plain.example".to_string(), scope: None, auth: None },
        Registry {
            url: "https://scoped.example".to_string(),
            scope: Some("@corp".to_string()),
            auth: None,
        },
    ];
    let picked = select_registry(&regs, "@corp/tool").expect("scoped registry matches");
    assert_eq!(picked.url, "https://scoped.example");
    let fallback = select_registry(&regs, "left-pad").expect("scope-less registry matches");
    assert_eq!(fallback.url, "https://plain.example");

    let scoped_only = vec![Registry {
        url: "https://scoped.example".to_string(),
        scope: Some("@corp".to_string()),
        auth: None,
    }];
    assert!(select_registry(&scoped_only, "left-pad").is_none());

    assert_eq!(package_url("https://plain.example", "left-pad"), "https://plain.example/left-pad");

    let inline = AuthSource::Inline("SECRET-REDACTED".to_string());
    assert_eq!(inline.read_token(None).unwrap(), "SECRET-REDACTED");
    let from_env = AuthSource::FromEnv { from_env: "NPM_TOKEN".to_string() };
    assert_eq!(from_env.read_token(Some("abc".to_string())).unwrap(), "abc");
    assert!(from_env.read_token(None).is_err());
}

#[test]
fn retry_budget() {
    let mut r = RetryState::new(3);
    assert!(r.should_try());
    r.record_failure();
    r.record_failure();
    r.record_failure();
    assert!(!r.should_try());
}

#[test]
fn store_download_extracts_once() {
    let mut store = StoreModel::new();
    assert!(!store.is_complete("left-pad@1.3.0"));
    let first = store.download("left-pad@1.3.0");
    let second = store.download("left-pad@1.3.0");
    assert!(first);
    assert!(!second);
    assert!(store.is_complete("left-pad@1.3.0"));
    assert!(!store.is_complete("other@1.0.0"));
}

#[test]
fn install_writes_once() {
    let mut tree = InstallModel::new();
    let marker = install_marker_name("left-pad@1.3.0");
    assert_eq!(marker, ".installed!left-pad@1.3.0");
    let first = tree.install(&marker);
    let second = tree.install(&marker);
    assert!(first);
    assert!(!second);
}

#[test]
fn memo_loader_runs_once_and_value_is_shared() {
    let mut table: MemoTable<u64> = MemoTable::new();
    assert!(table.claim("left-pad") == ClaimOutcome::Started);
    assert!(table.claim("left-pad") == ClaimOutcome::Wait);
    table.fulfill("left-pad", 42);
    assert!(table.claim("left-pad") == ClaimOutcome::Ready);
    assert_eq!(*table.lookup("left-pad").expect("value stored"), 42);
    // a different key starts its own loader
    assert!(table.claim("other") == ClaimOutcome::Started);
}

#[test]
fn node_platform_names() {
    assert_eq!(get_node_os("linux").unwrap(), "linux");
    assert_eq!(get_node_os("macos").unwrap(), "darwin");
    assert_eq!(get_node_os("windows").unwrap(), "win32");
    assert!(get_node_os("plan9").is_none());
    assert_eq!(get_node_cpu("x86_64"), "x64");
    assert_eq!(get_node_cpu("aarch64"), "aarch64");
}

#[test]
fn log_lines() {
    assert!(log_verbose(false, "quiet").is_none());
    assert_eq!(log_verbose(true, "loud").unwrap(), " VERBOSE  loud");
    assert_eq!(log_warning("careful"), " WARNING  careful");
    let (msg, line) = log_progress(true, "Preparing");
    assert_eq!(msg, "Preparing");
    assert_eq!(line.unwrap(), " VERBOSE  Preparing");
}

#[test]
fn manifest_edits() {
    assert_eq!(add_spec_text("1.3.0", false), "^1.3.0");
    assert_eq!(add_spec_text("1.3.0", true), "1.3.0");

    let mut deps: KeyMap<String> = KeyMap::new();
    deps.insert("left-pad".to_string(), "^1.0.0".to_string());
    assert!(remove_dependency(&mut deps, "left-pad").is_ok());
    assert!(remove_dependency(&mut deps, "left-pad").is_err());
    assert!(!deps.contains_key("left-pad"));
}


#[test]
fn aborting_range_shapes_are_kept_from_the_engine() {
    // the range parser aborts on an exact or tilde operator with a
    // wildcard major, so such text is never read as a range
    match VersionSpecifier::parse("=x") {
        VersionSpecifier::Other(t) => assert_eq!(t, "=x"),
        _ => panic!("must not reach the range engine"),
    }
    match VersionSpecifier::parse("~x") {
        VersionSpecifier::Other(t) => assert_eq!(t, "~x"),
        _ => panic!("must not reach the range engine"),
    }
    // and such a range satisfies nothing, wherever it stands
    assert!(!VersionSpecifier::Range("=*".to_string()).satisfies(&Version::new(1, 0, 0)));
    assert!(!VersionSpecifier::parse("npm:pkg@~*").satisfies(&Version::new(1, 0, 0)));

    // wildcards the engine does handle still work as ranges
    match VersionSpecifier::parse("^1.x") {
        VersionSpecifier::Range(t) => assert_eq!(t, "^1.x"),
        _ => panic!("expected a range"),
    }
    assert!(VersionSpecifier::parse("^1.x").satisfies(&Version::new(1, 5, 0)));
    match VersionSpecifier::parse(">=x") {
        VersionSpecifier::Range(t) => assert_eq!(t, ">=x"),
        _ => panic!("expected a range"),
    }
}

#[test]
fn request_text_order_is_the_lockfile_order() {
    let a = PackageSpecifier::parse("alpha!^1.0.0").expect("parses");
    let b = PackageSpecifier::parse("beta!^1.0.0").expect("parses");
    assert!(a.lt_req_text(&b));
    assert!(!b.lt_req_text(&a));
    assert!(!a.lt_req_text(&a));
}
