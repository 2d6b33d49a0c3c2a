use buildc::graph::Graph;
use buildc::graph::Package;
use buildc::graph::PackageConfig;

fn test_package(name: &str, dependency_names: Vec<&str>) -> Package {
    Package {
        dir: String::new(),
        name: name.to_string(),
        dependency_names: dependency_names.iter().map(|str| str.to_string()).collect(),
        build_script: None,
        config: PackageConfig::default(),
    }
}

#[test]
fn test_dependency_graph() {
    let a = test_package("a", vec!["b", "c"]);
    let b = test_package("b", vec!["c"]);
    let c = test_package("c", vec![]);
    let packages = vec![a.clone(), b.clone(), c.clone()];
    let graph = Graph::new(packages);

    let overall_order = graph.get_overall_build_order();
    assert_eq!(
        overall_order
            .iter()
            .map(|p| p.name.clone())
            .collect::<Vec<_>>(),
        vec!["c", "b", "a"]
    );

    let a_order = graph.get_package_dependencies_build_order("a").unwrap();
    assert_eq!(
        a_order.iter().map(|p| p.name.clone()).collect::<Vec<_>>(),
        vec!["c", "b"]
    );

    let b_order = graph.get_package_dependencies_build_order("b").unwrap();
    assert_eq!(
        b_order.iter().map(|p| p.name.clone()).collect::<Vec<_>>(),
        vec!["c"]
    );

    let c_order = graph.get_package_dependencies_build_order("c").unwrap();
    assert_eq!(
        c_order.iter().map(|p| p.name.clone()).collect::<Vec<_>>(),
        Vec::<String>::new()
    );
}

#[test]
fn unknown_package_is_not_found() {
    let packages = vec![test_package("a", vec![])];
    let graph = Graph::new(packages);
    assert!(graph.get_package_dependencies_build_order("missing").is_none());
    assert!(graph.get_package_dependencies_build_order("a").is_some());
}

#[test]
fn diamond_dependency_appears_once() {
    // d is reachable from a through b and through c.
    let a = test_package("a", vec!["b", "c"]);
    let b = test_package("b", vec!["d"]);
    let c = test_package("c", vec!["d"]);
    let d = test_package("d", vec![]);
    let graph = Graph::new(vec![a, b, c, d]);

    let order = graph.get_overall_build_order();
    let names: Vec<String> = order.iter().map(|p| p.name.clone()).collect();
    assert_eq!(names, vec!["d", "b", "c", "a"]);
    assert_eq!(names.iter().filter(|n| n.as_str() == "d").count(), 1);
}

#[test]
fn repeated_calls_give_the_same_order() {
    let a = test_package("a", vec!["b"]);
    let b = test_package("b", vec![]);
    let graph = Graph::new(vec![a, b]);
    let first: Vec<String> = graph
        .get_overall_build_order()
        .iter()
        .map(|p| p.name.clone())
        .collect();
    let second: Vec<String> = graph
        .get_overall_build_order()
        .iter()
        .map(|p| p.name.clone())
        .collect();
    assert_eq!(first, second);
    assert_eq!(first, vec!["b", "a"]);
}

#[test]
fn dangling_dependency_is_dropped() {
    let a = test_package("a", vec!["not-in-workspace", "b"]);
    let b = test_package("b", vec![]);
    let graph = Graph::new(vec![a, b]);
    let names: Vec<String> = graph
        .get_overall_build_order()
        .iter()
        .map(|p| p.name.clone())
        .collect();
    assert_eq!(names, vec!["b", "a"]);
}

#[test]
fn find_active_package_matches_directory_prefix() {
    let mut a = test_package("a", vec![]);
    a.dir = "/repo/packages/a".to_string();
    let mut b = test_package("b", vec![]);
    b.dir = "/repo/packages/b".to_string();
    let graph = Graph::new(vec![a, b]);

    let hit = graph.find_active_package("/repo/packages/b/src").unwrap();
    assert_eq!(hit.name, "b");
    let exact = graph.find_active_package("/repo/packages/a").unwrap();
    assert_eq!(exact.name, "a");
    // A sibling directory that only shares a name prefix is no match.
    assert!(graph.find_active_package("/repo/packages/ab").is_none());
    assert!(graph.find_active_package("/elsewhere").is_none());
}

#[test]
fn graph_rendering_lists_children_indented() {
    let a = test_package("a", vec!["b"]);
    let b = test_package("b", vec![]);
    let graph = Graph::new(vec![a, b]);
    let out = graph.print();
    assert_eq!(out, "Dependency Graph:\n- a\n  - b\n- b\n");

    let node = &graph.nodes[1];
    assert_eq!(node.print(&graph.nodes, 1), "  - a\n    - b\n");
}
