use buildc::commands;
use buildc::graph::Graph;
use buildc::graph::Package;
use buildc::graph::PackageConfig;
use buildc::monorepo::Monorepo;
use buildc::monorepo::PackageManager;
use buildc::monorepo::package_from_manifest;
use buildc::monorepo::workspace_dependency_names;
use buildc::text::join_path;

fn test_package(name: &str, dependency_names: Vec<&str>) -> Package {
    Package {
        dir: String::new(),
        name: name.to_string(),
        dependency_names: dependency_names.iter().map(|s| s.to_string()).collect(),
        build_script: None,
        config: PackageConfig::default(),
    }
}

fn pairs(v: Vec<(&str, &str)>) -> Vec<(String, String)> {
    v.into_iter().map(|(a, b)| (a.to_string(), b.to_string())).collect()
}

#[test]
fn run_cmd_names_the_package_manager() {
    assert_eq!(PackageManager::Pnpm.run_cmd(), vec!["pnpm", "--silent", "run"]);
    assert_eq!(PackageManager::Bun.run_cmd(), vec!["bun", "--silent", "run"]);
}

#[test]
fn cache_dir_sits_under_the_root() {
    let repo = Monorepo {
        root: "/repo".to_string(),
        package_manager: PackageManager::Pnpm,
        package_globs: vec!["packages/*".to_string()],
    };
    assert_eq!(repo.cache_dir(), "/repo/.cache");
    assert_eq!(repo.manifest_globs(), vec!["packages/*/package.json"]);
}

#[test]
fn to_graph_builds_the_dependency_graph() {
    let repo = Monorepo {
        root: "/repo".to_string(),
        package_manager: PackageManager::Bun,
        package_globs: vec![],
    };
    let graph = repo.to_graph(vec![test_package("a", vec!["b"]), test_package("b", vec![])]);
    let names: Vec<String> = graph
        .get_overall_build_order()
        .iter()
        .map(|p| p.name.clone())
        .collect();
    assert_eq!(names, vec!["b", "a"]);
}

#[test]
fn only_workspace_versions_count_as_dependencies() {
    let deps = pairs(vec![("a", "workspace:^1.0.0"), ("react", "^18.0.0")]);
    let dev_deps = pairs(vec![("b", "workspace:*"), ("vitest", "1.0.0")]);
    let names = workspace_dependency_names(&deps, &dev_deps);
    assert_eq!(names, vec!["a", "b"]);
}

#[test]
fn package_from_manifest_fills_the_fields() {
    let deps = pairs(vec![("lib", "workspace:*")]);
    let dev_deps = pairs(vec![]);
    let p = package_from_manifest(
        "app".to_string(),
        "/repo/packages/app".to_string(),
        Some("vite build".to_string()),
        &deps,
        &dev_deps,
        PackageConfig::default(),
    );
    assert_eq!(p.name, "app");
    assert_eq!(p.dir, "/repo/packages/app");
    assert_eq!(p.build_script.as_deref(), Some("vite build"));
    assert_eq!(p.dependency_names, vec!["lib"]);
    assert!(p.config.cache);
}

#[test]
fn config_defaults_fill_absent_fields() {
    let c = PackageConfig::default();
    assert!(c.cache);
    assert_eq!(c.out_dir, "dist");
    assert_eq!(c.includes, vec!["src/**/*"]);
    assert_eq!(
        c.excludes,
        vec![
            "**/__tests__/**",
            "**/__mocks__/**",
            "**/*.test.*",
            "**/e2e/**",
            "**/dist/**",
            "**/.output/**",
        ]
    );

    let partial = PackageConfig::from_parts(
        Some(false),
        None,
        Some(vec!["lib/**".to_string()]),
        None,
    );
    assert!(!partial.cache);
    assert_eq!(partial.out_dir, "dist");
    assert_eq!(partial.includes, vec!["lib/**"]);
    assert_eq!(partial.excludes, c.excludes);
}

#[test]
fn absolute_out_dir_joins_dir_and_out_dir() {
    let mut p = test_package("a", vec![]);
    p.dir = "/repo/packages/a".to_string();
    assert_eq!(p.absolute_out_dir(), "/repo/packages/a/dist");
    assert_eq!(join_path("/repo/", "dist"), "/repo/dist");
    assert_eq!(join_path("", "dist"), "dist");
    assert_eq!(join_path("/repo", "/abs"), "/abs");
}

#[test]
fn guard_recognises_only_the_true_value() {
    assert!(commands::guard_is_set(&Some("true".to_string())));
    assert!(!commands::guard_is_set(&Some("1".to_string())));
    assert!(!commands::guard_is_set(&None));
}

#[test]
fn build_targets_are_dependencies_then_the_package() {
    let a = test_package("a", vec!["b", "c"]);
    let b = test_package("b", vec!["c"]);
    let c = test_package("c", vec![]);
    let graph = Graph::new(vec![a.clone(), b, c]);

    let all_names: Vec<String> = commands::all(&graph).iter().map(|p| p.name.clone()).collect();
    assert_eq!(all_names, vec!["c", "b", "a"]);

    let build_names: Vec<String> = commands::build(&graph, &a)
        .unwrap()
        .iter()
        .map(|p| p.name.clone())
        .collect();
    assert_eq!(build_names, vec!["c", "b", "a"]);

    let deps_names: Vec<String> = commands::deps(&graph, &a)
        .unwrap()
        .iter()
        .map(|p| p.name.clone())
        .collect();
    assert_eq!(deps_names, vec!["c", "b"]);

    let stranger = test_package("z", vec![]);
    assert!(commands::build(&graph, &stranger).is_none());
    assert!(commands::deps(&graph, &stranger).is_none());
}

#[test]
fn graph_command_renders_the_tree() {
    let a = test_package("a", vec!["b"]);
    let b = test_package("b", vec![]);
    let graph = Graph::new(vec![a, b]);
    assert_eq!(commands::graph(&graph), "Dependency Graph:\n- a\n  - b\n- b\n");
}

#[test]
fn array_includes_either_finds_either_flag() {
    let args: Vec<&str> = vec!["deps", "--verbose"];
    assert!(commands::array_includes_either(&args, "-h", "--verbose"));
    assert!(!commands::array_includes_either(&args, "-h", "--help"));
}
