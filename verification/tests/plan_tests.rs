//! Tree building, hoisting, plan satisfaction, install jobs, scripts
//! and shims.

use cotton::kmap::KeyMap;
use cotton::package::{Bin, Dist, PackageMetadata, PlatformMap, VersionedPackageInfo};
use cotton::plan::{
    bin_links, install_jobs, script_commands, tree_size, verify_installation, Dependency,
    DependencyTree, Plan,
};
use cotton::resolve::Graph;
use cotton::semver::parse_version;
use cotton::specifier::{PackageSpecifier, VersionSpecifier};
use cotton::tree::{build_tree, build_trees, dependency_of, hoist_choices};
use cotton::version::Version;

fn spec_map(entries: Vec<(&str, &str)>) -> KeyMap<VersionSpecifier> {
    KeyMap {
        entries: entries
            .into_iter()
            .map(|(k, v)| (k.to_string(), VersionSpecifier::parse(v)))
            .collect(),
    }
}

fn pinned(name: &str, version: &str, deps: Vec<(&str, &str)>) -> VersionedPackageInfo {
    pinned_on(name, version, deps, vec![])
}

fn pinned_on(
    name: &str,
    version: &str,
    deps: Vec<(&str, &str)>,
    os: Vec<&str>,
) -> VersionedPackageInfo {
    let meta = PackageMetadata {
        name: name.to_string(),
        version: None,
        bin: None,
        dist: Dist { tarball: format!("https://registry.invalid/{name}.tgz") },
        dependencies: spec_map(deps),
        optional_dependencies: KeyMap { entries: vec![] },
        dev_dependencies: KeyMap { entries: vec![] },
        os: PlatformMap { tokens: os.into_iter().map(|t| t.to_string()).collect() },
        cpu: PlatformMap { tokens: vec![] },
        scripts: KeyMap { entries: vec![] },
    };
    VersionedPackageInfo {
        package: meta.info(),
        version: parse_version(version).expect("version parses"),
    }
}

fn req(text: &str) -> PackageSpecifier {
    PackageSpecifier::parse(text).expect("request parses")
}

fn graph_of(entries: Vec<(&str, VersionedPackageInfo)>) -> Graph {
    let mut g = Graph::new();
    for (r, p) in entries {
        g.insert_new(req(r), p);
    }
    g
}

#[test]
fn cycle_is_cut_at_the_revisit() {
    // a -> b -> a: b's backward edge is elided
    let graph = graph_of(vec![
        ("a!^1.0.0", pinned("a", "1.0.0", vec![("b", "^1.0.0")])),
        ("b!^1.0.0", pinned("b", "1.0.0", vec![("a", "^1.0.0")])),
    ]);
    let mut stack = Vec::new();
    let top = pinned("a", "1.0.0", vec![("b", "^1.0.0")]);
    let tree = build_tree(&graph, &top, &mut stack, &vec![], false, "linux", "x64", false)
        .expect("no failure")
        .expect("a subtree");
    assert_eq!(tree.root.name, "a");
    assert_eq!(tree.children.len(), 1);
    assert_eq!(tree.children[0].0, "b");
    assert_eq!(tree.children[0].1.root.name, "b");
    assert_eq!(tree.children[0].1.children.len(), 0, "the cyclic edge is cut");
}

#[test]
fn unsupported_platform_skips_optional_and_fails_required() {
    let graph = graph_of(vec![
        ("native-thing!^1.0.0", pinned_on("native-thing", "1.0.0", vec![], vec!["linux"])),
    ]);
    let native = pinned_on("native-thing", "1.0.0", vec![], vec!["linux"]);

    let mut stack = Vec::new();
    let skipped = build_tree(&graph, &native, &mut stack, &vec![], true, "darwin", "x64", false)
        .expect("optional failure is silent");
    assert!(skipped.is_none());

    let mut stack2 = Vec::new();
    let err = build_tree(&graph, &native, &mut stack2, &vec![], false, "darwin", "x64", false)
        .expect_err("a required dependency must be supported");
    assert_eq!(
        err.message(),
        "Required dependency is not supported on this platform: native-thing@1.0.0"
    );

    let mut stack3 = Vec::new();
    let built = build_tree(&graph, &native, &mut stack3, &vec![], false, "linux", "x64", false)
        .expect("supported")
        .expect("a subtree");
    assert_eq!(built.root.name, "native-thing");
}

#[test]
fn hoisting_prefers_greatest_version_and_roots_win() {
    let flat = vec![
        pinned("a", "1.0.0", vec![]),
        pinned("a", "2.0.0", vec![]),
        pinned("b", "1.0.0", vec![]),
    ];
    let roots: KeyMap<VersionedPackageInfo> = KeyMap { entries: vec![] };
    let chosen = hoist_choices(&flat, &roots);
    assert_eq!(chosen.get("a").expect("a is chosen").version.to_text(), "2.0.0");
    assert_eq!(chosen.get("b").expect("b is chosen").version.to_text(), "1.0.0");

    // an explicit root keeps its own pick even when a greater version
    // is reachable
    let mut root_map: KeyMap<VersionedPackageInfo> = KeyMap::new();
    root_map.insert("a".to_string(), pinned("a", "1.0.0", vec![]));
    let chosen2 = hoist_choices(&flat, &root_map);
    assert_eq!(chosen2.get("a").expect("a is chosen").version.to_text(), "1.0.0");
}

#[test]
fn nested_conflict_keeps_greater_version_on_top() {
    // two direct deps: a needs c@1, b needs c@2; the greater c is
    // hoisted, and a keeps its own c below itself
    let graph = graph_of(vec![
        ("a!^1.0.0", pinned("a", "1.0.0", vec![("c", "^1.0.0")])),
        ("b!^1.0.0", pinned("b", "1.0.0", vec![("c", "^2.0.0")])),
        ("c!^1.0.0", pinned("c", "1.0.0", vec![])),
        ("c!^2.0.0", pinned("c", "2.0.0", vec![])),
    ]);
    let roots = vec![req("a!^1.0.0"), req("b!^1.0.0")];
    let trees = build_trees(&graph, &roots, "linux", "x64", false).expect("builds");

    let top_c = trees.iter().find(|t| t.root.name == "c").expect("c is hoisted");
    assert_eq!(top_c.root.version.to_text(), "2.0.0");

    let a = trees.iter().find(|t| t.root.name == "a").expect("a is a root");
    assert_eq!(a.children.len(), 1, "a keeps its incompatible c nested");
    assert_eq!(a.children[0].1.root.name, "c");
    assert_eq!(a.children[0].1.root.version.to_text(), "1.0.0");

    let b = trees.iter().find(|t| t.root.name == "b").expect("b is a root");
    assert_eq!(b.children.len(), 0, "b's c is served by the top level");
}

fn tree(name: &str, version: &str, children: Vec<DependencyTree>) -> DependencyTree {
    DependencyTree {
        root: dependency_of(&pinned(name, version, vec![])),
        children: children.into_iter().map(|t| (t.root.name.clone(), t)).collect(),
    }
}

fn manifest(deps: Vec<(&str, &str)>) -> PackageMetadata {
    PackageMetadata {
        name: "project".to_string(),
        version: None,
        bin: None,
        dist: Dist { tarball: String::new() },
        dependencies: spec_map(deps),
        optional_dependencies: KeyMap { entries: vec![] },
        dev_dependencies: KeyMap { entries: vec![] },
        os: PlatformMap { tokens: vec![] },
        cpu: PlatformMap { tokens: vec![] },
        scripts: KeyMap { entries: vec![] },
    }
}

#[test]
fn plan_satisfaction_checks_top_level_versions() {
    let plan = Plan::new(vec![("left-pad".to_string(), tree("left-pad", "1.3.0", vec![]))]);
    assert!(plan.satisfies(&manifest(vec![("left-pad", "^1.0.0")])));
    assert!(!plan.satisfies(&manifest(vec![("left-pad", "^2.0.0")])));
    assert!(!plan.satisfies(&manifest(vec![("other", "^1.0.0")])));
    // an empty manifest is satisfied by any plan
    assert!(plan.satisfies(&manifest(vec![])));
}

#[test]
fn plan_equality_and_skip_check() {
    let a = Plan::new(vec![("x".to_string(), tree("x", "1.0.0", vec![]))]);
    let b = Plan::new(vec![("x".to_string(), tree("x", "1.0.0", vec![]))]);
    let c = Plan::new(vec![("x".to_string(), tree("x", "2.0.0", vec![]))]);
    assert!(a.eq_plan(&b));
    assert!(!a.eq_plan(&c));
    assert!(verify_installation(&a, &b, &manifest(vec![("x", "^1.0.0")])));
    assert!(!verify_installation(&a, &c, &manifest(vec![("x", "^1.0.0")])));
    assert!(!verify_installation(&a, &b, &manifest(vec![("x", "^3.0.0")])));
}

#[test]
fn tree_size_counts_nested_packages() {
    let plan = Plan::new(vec![
        ("a".to_string(), tree("a", "1.0.0", vec![tree("c", "1.0.0", vec![])])),
        ("b".to_string(), tree("b", "1.0.0", vec![])),
    ]);
    assert_eq!(tree_size(&plan.trees), 3);
}

#[test]
fn install_jobs_schedule_ancestors_first() {
    let plan = Plan::new(vec![
        ("a".to_string(), tree("a", "1.0.0", vec![tree("c", "1.0.0", vec![])])),
        ("b".to_string(), tree("b", "1.0.0", vec![])),
    ]);
    let jobs = install_jobs(&plan);
    assert_eq!(jobs.len(), 3);
    assert_eq!(jobs[0].dep.name, "a");
    assert_eq!(jobs[0].prefix.len(), 0);
    assert_eq!(jobs[1].dep.name, "c");
    assert_eq!(jobs[1].prefix, vec!["a".to_string()]);
    assert_eq!(jobs[2].dep.name, "b");
    assert_eq!(jobs[2].prefix.len(), 0);

    // every job's ancestor chain is scheduled before it
    for (i, job) in jobs.iter().enumerate() {
        if !job.prefix.is_empty() {
            let parent = &job.prefix[job.prefix.len() - 1];
            assert!(jobs[..i].iter().any(|j| &j.dep.name == parent));
        }
    }
}

#[test]
fn filter_prunes_hoisted_children_everywhere() {
    let t = tree("a", "1.0.0", vec![
        tree("c", "1.0.0", vec![tree("d", "1.0.0", vec![])]),
        tree("d", "1.0.0", vec![]),
    ]);
    let exclude = vec![dependency_of(&pinned("d", "1.0.0", vec![]))];
    let filtered = t.filter(&exclude);
    assert_eq!(filtered.children.len(), 1);
    assert_eq!(filtered.children[0].0, "c");
    assert_eq!(filtered.children[0].1.children.len(), 0, "the nested d is pruned too");
}

#[test]
fn dependency_id_swaps_separators() {
    let plain = dependency_of(&pinned("left-pad", "1.3.0", vec![]));
    assert_eq!(plain.id(), "left-pad@1.3.0");
    let scoped = dependency_of(&pinned("@scope/pkg", "1.0.0-rc.1", vec![]));
    assert_eq!(scoped.id(), "@scope!pkg@1.0.0-rc.1");
}

#[test]
fn scripts_run_in_fixed_order() {
    let mut dep = dependency_of(&pinned("pkg", "1.0.0", vec![]));
    dep.scripts = KeyMap {
        entries: vec![
            ("postinstall".to_string(), "echo done".to_string()),
            ("preinstall".to_string(), "echo first".to_string()),
        ],
    };
    let commands = script_commands(&dep);
    assert_eq!(commands.len(), 2);
    assert_eq!(commands[0], ("preinstall".to_string(), "echo first".to_string()));
    assert_eq!(commands[1], ("postinstall".to_string(), "echo done".to_string()));
}

#[test]
fn shims_skip_commands_with_separators() {
    let mut dep = dependency_of(&pinned("tool", "1.0.0", vec![]));
    dep.bins = KeyMap {
        entries: vec![
            ("tool".to_string(), "bin/cli.js".to_string()),
            ("bad/cmd".to_string(), "bin/other.js".to_string()),
        ],
    };
    let plan = Plan::new(vec![(
        "tool".to_string(),
        DependencyTree { root: dep, children: vec![] },
    )]);
    let links = bin_links(&plan);
    assert_eq!(links.len(), 1);
    assert_eq!(links[0], ("tool".to_string(), "../tool/bin/cli.js".to_string()));
}

#[test]
fn single_bin_takes_the_package_name() {
    let mut info = pinned("tool", "1.0.0", vec![]);
    info.package.bin = Some(Bin::Single("cli.js".to_string()));
    let bins = info.package.bins();
    assert_eq!(bins.entries.len(), 1);
    assert_eq!(bins.entries[0].0, "tool");
    assert_eq!(bins.entries[0].1, "cli.js");

    let dep = dependency_of(&info);
    assert_eq!(dep.bins.entries.len(), 1);

    // the versioned identity survives the reduction
    assert_eq!(dep.name, "tool");
    assert!(dep.version.eq_version(&Version::new(1, 0, 0)));
}


#[test]
fn cyclic_graph_still_builds_a_forest() {
    // a -> b -> a: the forest builds, both names stand at the top
    // level, and the nested back edges are pruned by hoisting
    let graph = graph_of(vec![
        ("a!^1.0.0", pinned("a", "1.0.0", vec![("b", "^1.0.0")])),
        ("b!^1.0.0", pinned("b", "1.0.0", vec![("a", "^1.0.0")])),
    ]);
    let roots = vec![req("a!^1.0.0")];
    let trees = build_trees(&graph, &roots, "linux", "x64", false).expect("cycles never fail");
    let names: Vec<&str> = trees.iter().map(|t| t.root.name.as_str()).collect();
    assert!(names.contains(&"a"));
    assert!(names.contains(&"b"));
    for t in &trees {
        assert_eq!(t.children.len(), 0, "hoisted names are pruned from nested positions");
    }
}
