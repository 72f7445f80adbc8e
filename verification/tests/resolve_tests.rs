//! Resolution: version picking, tag lookup, aliases, direct URLs, the
//! session that builds the graph, and the lockfile round trip.

use cotton::errors::ResolveError;
use cotton::kmap::KeyMap;
use cotton::package::{Dist, PackageMetadata, PlatformMap, VersionedPackageInfo};
use cotton::registry::{
    fetch_plan, resolve_from_response, resolve_from_tarball_manifest, FetchPlan, RegistryResponse,
};
use cotton::resolve::{Graph, Lockfile, ResolveState};
use cotton::semver::parse_version;
use cotton::specifier::{PackageSpecifier, VersionSpecifier};

fn spec_map(entries: Vec<(&str, &str)>) -> KeyMap<VersionSpecifier> {
    KeyMap {
        entries: entries
            .into_iter()
            .map(|(k, v)| (k.to_string(), VersionSpecifier::parse(v)))
            .collect(),
    }
}

fn meta(name: &str, version: Option<&str>, deps: Vec<(&str, &str)>) -> PackageMetadata {
    PackageMetadata {
        name: name.to_string(),
        version: version.map(|v| parse_version(v).expect("version parses")),
        bin: None,
        dist: Dist { tarball: format!("https://registry.invalid/{name}.tgz") },
        dependencies: spec_map(deps),
        optional_dependencies: KeyMap { entries: vec![] },
        dev_dependencies: KeyMap { entries: vec![] },
        os: PlatformMap { tokens: vec![] },
        cpu: PlatformMap { tokens: vec![] },
        scripts: KeyMap { entries: vec![] },
    }
}

fn response(tags: Vec<(&str, &str)>, versions: Vec<(&str, PackageMetadata)>) -> RegistryResponse {
    RegistryResponse {
        dist_tags: KeyMap {
            entries: tags.into_iter().map(|(k, v)| (k.to_string(), v.to_string())).collect(),
        },
        versions: versions
            .into_iter()
            .map(|(v, m)| (parse_version(v).expect("version parses"), m))
            .collect(),
    }
}

fn req(text: &str) -> PackageSpecifier {
    PackageSpecifier::parse(text).expect("request parses")
}

#[test]
fn range_pick_prefers_greatest_stable() {
    let resp = response(
        vec![],
        vec![
            ("1.0.0", meta("pkg", None, vec![])),
            ("1.2.0", meta("pkg", None, vec![])),
            ("1.2.0-beta", meta("pkg", None, vec![])),
            ("2.0.0", meta("pkg", None, vec![])),
        ],
    );
    let picked = resp.pick_version("^1.0.0").expect("a version matches");
    assert_eq!(resp.versions[picked].0.to_text(), "1.2.0");

    let pinned = resolve_from_response(&req("pkg!^1.0.0"), &resp).expect("resolves");
    assert_eq!(pinned.version.to_text(), "1.2.0");

    // with only pre-releases matching, the greatest pre-release wins
    let pre = response(
        vec![],
        vec![
            ("1.0.0-alpha.1", meta("pkg", None, vec![])),
            ("1.0.0-alpha.2", meta("pkg", None, vec![])),
        ],
    );
    let picked2 = pre.pick_version(">=1.0.0-alpha.1").expect("a pre-release matches");
    assert_eq!(pre.versions[picked2].0.to_text(), "1.0.0-alpha.2");
}

#[test]
fn unsatisfiable_range_reports() {
    let resp = response(vec![], vec![("1.0.0", meta("pkg", None, vec![]))]);
    let err = resolve_from_response(&req("pkg!^3.0.0"), &resp).expect_err("nothing matches");
    assert_eq!(err.message(), "Version cannot be satisfied: pkg ^3.0.0");
}

#[test]
fn tag_resolution() {
    let resp = response(
        vec![("latest", "3.1.4")],
        vec![("3.0.0", meta("pkg", None, vec![])), ("3.1.4", meta("pkg", None, vec![]))],
    );
    let pinned = resolve_from_response(&req("pkg!latest"), &resp).expect("tag resolves");
    assert_eq!(pinned.version.to_text(), "3.1.4");

    // a missing tag cannot be satisfied
    let err = resolve_from_response(&req("pkg!next"), &resp).expect_err("tag absent");
    assert_eq!(err.message(), "Version cannot be satisfied: pkg next");

    // a tag naming an absent version fails
    let stale = response(vec![("latest", "9.9.9")], vec![("3.0.0", meta("pkg", None, vec![]))]);
    let err2 = resolve_from_response(&req("pkg!latest"), &stale).expect_err("version absent");
    assert_eq!(err2.message(), "Tag refers to a version that does not exist: pkg 9.9.9");
}

#[test]
fn alias_resolution_renames() {
    let resp = response(vec![], vec![("1.5.0", meta("real-name", None, vec![]))]);
    let request = req("local-name!npm:real-name@^1.0.0");
    match fetch_plan(&request).expect("plan") {
        FetchPlan::Registry { name } => assert_eq!(name, "real-name"),
        _ => panic!("an alias fetches from the registry"),
    }
    let pinned = resolve_from_response(&request, &resp).expect("alias resolves");
    assert_eq!(pinned.package.name, "local-name");
    assert_eq!(pinned.version.to_text(), "1.5.0");

    let bad = req("local-name!jsr:thing@^1.0.0");
    let err = fetch_plan(&bad).expect_err("unknown prefix");
    assert_eq!(err.message(), "Unsupported version prefix: jsr");
}

#[test]
fn direct_url_pins_manifest_version() {
    let request = req("pkg!https://example.invalid/pkg.tgz");
    match fetch_plan(&request).expect("plan") {
        FetchPlan::Tarball { url } => assert_eq!(url, "https://example.invalid/pkg.tgz"),
        _ => panic!("a direct URL fetches the tarball"),
    }
    let manifest = meta("pkg", Some("0.0.0-deadbeef"), vec![]);
    let pinned = resolve_from_tarball_manifest(
        &request,
        manifest,
        "https://example.invalid/pkg.tgz",
    )
        .expect("resolves");
    assert_eq!(pinned.version.to_text(), "0.0.0-deadbeef");
    // the download source is rewritten to the requested URL
    assert_eq!(pinned.package.dist.tarball, "https://example.invalid/pkg.tgz");

    let no_version = meta("pkg", None, vec![]);
    let err = resolve_from_tarball_manifest(
        &request,
        no_version,
        "https://example.invalid/pkg.tgz",
    )
        .expect_err("no version in the manifest");
    assert_eq!(err.message(), "Package does not specify a version: https://example.invalid/pkg.tgz");
}

fn drive(state: &mut ResolveState, registry: &Vec<(&str, RegistryResponse)>) {
    while let Some(request) = state.next_request() {
        let fetch_name = match fetch_plan(&request).expect("plan") {
            FetchPlan::Registry { name } => name,
            FetchPlan::Tarball { .. } => panic!("no tarballs in this fixture"),
        };
        let resp = &registry
            .iter()
            .find(|(n, _)| *n == fetch_name)
            .expect("fixture has the package")
            .1;
        let pinned = resolve_from_response(&request, resp).expect("resolves");
        state.complete_next(pinned);
    }
}

#[test]
fn session_resolves_transitively_and_closes() {
    // two roots share a diamond: a -> c and b -> c
    let registry = vec![
        ("a", response(vec![], vec![("1.0.0", meta("a", None, vec![("c", "^1.0.0")]))])),
        ("b", response(vec![], vec![("1.0.0", meta("b", None, vec![("c", "^1.0.0")]))])),
        ("c", response(vec![], vec![("1.0.0", meta("c", None, vec![]))])),
    ];
    let roots = vec![req("a!^1.0.0"), req("b!^1.0.0")];
    let mut state = ResolveState::new_session(Graph::new(), &roots);
    drive(&mut state, &registry);
    assert!(state.finished());
    let graph = state.graph;
    assert_eq!(graph.len(), 3);

    // closure: every child request of every entry is itself pinned
    for i in 0..graph.relations.len() {
        for child in graph.relations[i].1.package.iter() {
            assert!(graph.contains(&child), "child request is pinned");
        }
    }
    // satisfaction: every pinned version satisfies its request
    for i in 0..graph.relations.len() {
        let (request, pinned) = &graph.relations[i];
        assert!(request.version.satisfies(&pinned.version));
    }
}

#[test]
fn complete_lockfile_asks_for_nothing() {
    let registry = vec![
        ("pkg", response(vec![("latest", "3.1.4")], vec![("3.1.4", meta("pkg", None, vec![]))])),
    ];
    let roots = vec![req("pkg!latest")];
    let mut state = ResolveState::new_session(Graph::new(), &roots);
    drive(&mut state, &registry);
    let graph = state.graph;

    // persist and reload the graph, then resolve again: nothing pends,
    // so no registry access happens
    let lockfile = Lockfile::new(&graph);
    let reloaded = lockfile.into_graph();
    assert_eq!(reloaded.len(), graph.len());
    let request = req("pkg!latest");
    assert!(reloaded.contains(&request));
    let again = ResolveState::new_session(reloaded, &roots);
    assert!(again.finished());
    let pinned = again.graph.resolve_req(&request, true).expect("still pinned");
    assert_eq!(pinned.version.to_text(), "3.1.4");
}

#[test]
fn missing_request_reports_lockfile_stale() {
    let graph = Graph::new();
    let request = req("new-dep!^1.0.0");
    let err = graph.resolve_req(&request, true).expect_err("absent from the lockfile");
    let message = err.message();
    assert!(message.contains("A dependency could not be found: new-dep!^1.0.0"));
    assert!(message.contains("--immutable"));

    let err2 = graph.resolve_req(&request, false).expect_err("absent from the lockfile");
    assert!(!err2.message().contains("--immutable"));
}

#[test]
fn lockfile_round_trip_preserves_entries() {
    let mut graph = Graph::new();
    graph.insert_new(
        req("left-pad!^1.0.0"),
        VersionedPackageInfo {
            package: meta("left-pad", None, vec![]).info(),
            version: parse_version("1.3.0").unwrap(),
        },
    );
    let lockfile = Lockfile::new(&graph);
    let back = lockfile.into_graph();
    assert_eq!(back.len(), 1);
    let pinned = back.get(&req("left-pad!^1.0.0")).expect("entry kept");
    assert_eq!(pinned.version.to_text(), "1.3.0");
    assert_eq!(pinned.package.name, "left-pad");
}

#[test]
fn scenario_single_dependency() {
    // a manifest with one dependency over a registry with two versions
    let registry = vec![
        (
            "left-pad",
            response(
                vec![],
                vec![
                    ("1.0.0", meta("left-pad", None, vec![])),
                    ("1.3.0", meta("left-pad", None, vec![])),
                ],
            ),
        ),
    ];
    let roots = vec![req("left-pad!^1.0.0")];
    let mut state = ResolveState::new_session(Graph::new(), &roots);
    drive(&mut state, &registry);
    let graph = state.graph;
    assert_eq!(graph.len(), 1, "the lockfile holds exactly one entry");
    let pinned = graph.get(&roots[0]).expect("pinned");
    assert_eq!(pinned.version.to_text(), "1.3.0");

    // the store receives exactly one extraction for it
    let mut store = cotton::store::StoreModel::new();
    let id = cotton::tree::pinned_id(pinned);
    assert_eq!(id, "left-pad@1.3.0");
    assert!(store.download(&id));
    assert!(!store.download(&id));
    assert!(store.is_complete("left-pad@1.3.0"));
}

#[test]
fn resolve_error_for_bad_tag_version_text() {
    let resp = response(vec![("latest", "not a version")], vec![]);
    let err = resolve_from_response(&req("pkg!latest"), &resp).expect_err("unparsable");
    assert_eq!(err.message(), "Tag version does not parse: pkg not a version");
    // the error type distinguishes this failure
    assert!(matches!(err, ResolveError::BadVersionText { .. }));
}

#[test]
fn reverse_dependents_trace() {
    let mut graph = Graph::new();
    graph.insert_new(
        req("a!^1.0.0"),
        VersionedPackageInfo {
            package: meta("a", None, vec![("c", "^1.0.0")]).info(),
            version: parse_version("1.0.0").unwrap(),
        },
    );
    graph.insert_new(
        req("b!^1.0.0"),
        VersionedPackageInfo {
            package: meta("b", None, vec![]).info(),
            version: parse_version("1.0.0").unwrap(),
        },
    );
    graph.insert_new(
        req("c!^1.0.0"),
        VersionedPackageInfo {
            package: meta("c", None, vec![]).info(),
            version: parse_version("1.0.0").unwrap(),
        },
    );
    let users = cotton::resolve::dependents_of(&graph, "c", &parse_version("1.0.0").unwrap());
    assert_eq!(users.len(), 1);
    assert_eq!(users[0].name, "a");
    let none = cotton::resolve::dependents_of(&graph, "b", &parse_version("2.0.0").unwrap());
    assert!(none.is_empty());
}


#[test]
fn aborting_range_matches_no_version() {
    let resp = response(vec![], vec![("1.0.0", meta("pkg", None, vec![]))]);
    assert!(resp.pick_version("=x").is_none());
    assert!(resp.pick_version("~*").is_none());
    // a caret wildcard is a real range and still picks
    let picked = resp.pick_version("^1.x").expect("matches");
    assert_eq!(resp.versions[picked].0.to_text(), "1.0.0");
}

#[test]
fn graph_deciders_check_a_loaded_lockfile() {
    // a resolver-built graph passes both deciders
    let mut good = Graph::new();
    good.insert_new(
        req("left-pad!^1.0.0"),
        VersionedPackageInfo {
            package: meta("left-pad", None, vec![]).info(),
            version: parse_version("1.3.0").unwrap(),
        },
    );
    assert!(cotton::resolve::graph_is_satisfied(&good));
    assert!(cotton::resolve::graph_is_closed(&good));

    // a hand-edited pin that misses its range is rejected
    let mut bad_pin = Graph::new();
    bad_pin.insert_new(
        req("left-pad!^2.0.0"),
        VersionedPackageInfo {
            package: meta("left-pad", None, vec![]).info(),
            version: parse_version("1.3.0").unwrap(),
        },
    );
    assert!(!cotton::resolve::graph_is_satisfied(&bad_pin));

    // a dangling child request makes the graph open
    let mut open_graph = Graph::new();
    open_graph.insert_new(
        req("a!^1.0.0"),
        VersionedPackageInfo {
            package: meta("a", None, vec![("missing", "^1.0.0")]).info(),
            version: parse_version("1.0.0").unwrap(),
        },
    );
    assert!(!cotton::resolve::graph_is_closed(&open_graph));
}
