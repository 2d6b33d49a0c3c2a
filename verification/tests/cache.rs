use buildc::cache::package_cache_dir;
use buildc::commands::BuildPlan;
use buildc::commands::plan_package_build;
use buildc::graph::Package;
use buildc::graph::PackageConfig;

fn package(name: &str, build_script: Option<&str>, cache: bool) -> Package {
    let mut config = PackageConfig::default();
    config.cache = cache;
    Package {
        dir: format!("/repo/packages/{}", name),
        name: name.to_string(),
        build_script: build_script.map(|s| s.to_string()),
        dependency_names: vec![],
        config,
    }
}

#[test]
fn cache_entry_path_is_name_then_digest() {
    let dir = package_cache_dir("/repo/.cache", "a", "0123abcd");
    assert_eq!(dir, "/repo/.cache/a/0123abcd");
}

#[test]
fn distinct_digests_use_distinct_entries() {
    let d1 = package_cache_dir("/repo/.cache", "a", "abc3b325e0f77c37db129424c172164c");
    let d2 = package_cache_dir("/repo/.cache", "a", "281e06970963ddd4ac30dd83006cc495");
    assert_ne!(d1, d2);
}

#[test]
fn no_build_script_means_nothing_to_build() {
    let p = package("a", None, true);
    let plan = plan_package_build(&p, "/repo/.cache", "d1", true);
    assert!(matches!(plan, BuildPlan::NothingToBuild));
}

#[test]
fn existing_entry_restores_into_the_output_directory() {
    let p = package("a", Some("tsc"), true);
    let plan = plan_package_build(&p, "/repo/.cache", "d1", true);
    match plan {
        BuildPlan::Restore { from, to } => {
            assert_eq!(from, "/repo/.cache/a/d1");
            assert_eq!(to, "/repo/packages/a/dist");
        }
        _ => panic!("expected a restore"),
    }
}

#[test]
fn missing_entry_runs_and_saves() {
    let p = package("a", Some("tsc"), true);
    let plan = plan_package_build(&p, "/repo/.cache", "d1", false);
    match plan {
        BuildPlan::Run { dir, save_from, save_to } => {
            assert_eq!(dir, "/repo/packages/a");
            assert_eq!(save_from.unwrap(), "/repo/packages/a/dist");
            assert_eq!(save_to.unwrap(), "/repo/.cache/a/d1");
        }
        _ => panic!("expected a build"),
    }
}

#[test]
fn uncacheable_package_always_runs_and_never_saves() {
    let p = package("a", Some("tsc"), false);
    let plan = plan_package_build(&p, "/repo/.cache", "d1", true);
    match plan {
        BuildPlan::Run { dir, save_from, save_to } => {
            assert_eq!(dir, "/repo/packages/a");
            assert!(save_from.is_none());
            assert!(save_to.is_none());
        }
        _ => panic!("expected a build"),
    }
}

#[test]
fn restore_reads_where_save_wrote() {
    // A save under digest d writes the entry a later restore under d reads,
    // and a restore under another digest looks somewhere else.
    let p = package("a", Some("tsc"), true);
    let save_plan = plan_package_build(&p, "/repo/.cache", "d1", false);
    let saved_to = match save_plan {
        BuildPlan::Run { save_to, .. } => save_to.unwrap(),
        _ => panic!("expected a build"),
    };
    let restore_plan = plan_package_build(&p, "/repo/.cache", "d1", true);
    let restored_from = match restore_plan {
        BuildPlan::Restore { from, .. } => from,
        _ => panic!("expected a restore"),
    };
    assert_eq!(saved_to, restored_from);

    let other = plan_package_build(&p, "/repo/.cache", "d2", true);
    let other_from = match other {
        BuildPlan::Restore { from, .. } => from,
        _ => panic!("expected a restore"),
    };
    assert_ne!(saved_to, other_from);
}
