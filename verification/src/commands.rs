//! The orchestrator's decisions: which packages to build for each command,
//! and what to do for one package given its digest and cache state.

use vstd::prelude::*;
use crate::cache::package_cache_dir;
use crate::cache::spec_package_cache_dir;
use crate::graph::Graph;
use crate::graph::Package;
use crate::graph::last_name_index;
use crate::graph::spec_render_list;
use crate::order::id_seq;
use crate::order::spec_dependency_order;
use crate::order::spec_overall_order;
use crate::order::wf_nodes;
use crate::text::spec_join_path;
use crate::text::str_eq;

verus! {

/// What the orchestrator does for one package, once its digest and the
/// presence of a cache entry are known.
pub enum BuildPlan {
    /// The package has no build command: nothing runs, nothing is cached.
    NothingToBuild,
    /// A cache hit: copy the snapshot at `from` into the package's output
    /// directory at `to`, and run nothing.
    Restore { from: String, to: String },
    /// A cache miss, or caching is off: run the package's build command in
    /// `dir`; when caching is on, afterwards copy the output directory
    /// `save_from` into the cache entry `save_to`.
    Run { dir: String, save_from: Option<String>, save_to: Option<String> },
}

/// Decide what to do for one package.  The build command runs exactly when
/// the package has one and no usable cache entry exists; a restore happens
/// exactly when the package has a build command, caching is on, and the
/// entry for the digest exists; the output is saved exactly when the
/// command ran and caching is on.
pub fn plan_package_build(
    package: &Package,
    cache_root: &str,
    digest: &str,
    cache_entry_exists: bool,
) -> (plan: BuildPlan)
    ensures
        ({
            let entry = spec_package_cache_dir(cache_root@, package.name@, digest@);
            let out = spec_join_path(package.dir@, package.config.out_dir@);
            &&& (package.build_script is None <==> plan is NothingToBuild)
            &&& ((package.build_script is Some && cache_entry_exists && package.config.cache)
                <==> plan is Restore)
            &&& (plan matches BuildPlan::Restore { from, to } ==> from@ == entry && to@ == out)
            &&& ((package.build_script is Some && !(cache_entry_exists && package.config.cache))
                <==> plan is Run)
            &&& (plan matches BuildPlan::Run { dir, save_from, save_to } ==> {
                &&& dir@ == package.dir@
                &&& (package.config.cache ==> (save_from matches Option::Some(f) && f@ == out))
                &&& (package.config.cache ==> (save_to matches Option::Some(t) && t@ == entry))
                &&& (!package.config.cache ==> save_from is None && save_to is None)
            })
        }),
{
    if package.build_script.is_none() {
        return BuildPlan::NothingToBuild;
    }
    let entry = package_cache_dir(cache_root, package.name.as_str(), digest);
    if cache_entry_exists && package.config.cache {
        BuildPlan::Restore { from: entry, to: package.absolute_out_dir() }
    } else if package.config.cache {
        BuildPlan::Run {
            dir: package.dir.clone(),
            save_from: Option::Some(package.absolute_out_dir()),
            save_to: Option::Some(entry),
        }
    } else {
        BuildPlan::Run { dir: package.dir.clone(), save_from: Option::None, save_to: Option::None }
    }
}

/// Whether the re-entrancy guard is set: an ancestor invocation announced,
/// through the environment, that it already enforced the build order, so
/// the current invocation must only run its own command.
pub fn guard_is_set(value: &Option<String>) -> (r: bool)
    ensures
        r == (value matches Option::Some(v) && v@ == "true"@),
{
    match value {
        Option::None => false,
        Option::Some(s) => str_eq(s.as_str(), "true"),
    }
}

/// The packages the `all` command builds: every package of the workspace,
/// in dependency order.
pub fn all(graph: &Graph) -> (pkgs: Vec<Package>)
    requires
        wf_nodes(graph.nodes@),
        graph.nodes@.len() >= 1,
    ensures
        pkgs.deep_view() == spec_overall_order(graph.nodes@).map_values(
            |k: usize| graph.nodes@[k as int].package@,
        ),
{
    graph.get_overall_build_order()
}

/// What the `graph` command prints: the dependency tree of the workspace.
pub fn graph(g: &Graph) -> (out: String)
    requires
        wf_nodes(g.nodes@),
        g.nodes@.len() >= 1,
        g.nodes@.len() + 1 <= usize::MAX as int,
    ensures
        out@ == "Dependency Graph:\n"@ + spec_render_list(
            g.nodes@,
            g.nodes@[0].children@,
            0,
            g.nodes@.len() as nat,
        ),
{
    g.print()
}

/// The packages the `deps` command builds: the active package's
/// dependencies in build order, or nothing when the package is unknown.
pub fn deps(graph: &Graph, active: &Package) -> (r: Option<Vec<Package>>)
    requires
        wf_nodes(graph.nodes@),
        graph.nodes@.len() >= 1,
    ensures
        ({
            let names = id_seq(graph.nodes@).skip(1);
            let li = last_name_index(names, active.name@);
            &&& (r is Some <==> names.contains(active.name@))
            &&& (r is Some ==> r.unwrap().deep_view() == spec_dependency_order(
                graph.nodes@,
                ((li + 1) as usize),
            ).map_values(|k: usize| graph.nodes@[k as int].package@))
        }),
{
    graph.get_package_dependencies_build_order(active.name.as_str())
}

/// The packages the `build` command builds: the active package's
/// dependencies in build order, followed by the active package itself, or
/// nothing when the package is unknown.
pub fn build(graph: &Graph, active: &Package) -> (r: Option<Vec<Package>>)
    requires
        wf_nodes(graph.nodes@),
        graph.nodes@.len() >= 1,
    ensures
        ({
            let names = id_seq(graph.nodes@).skip(1);
            let li = last_name_index(names, active.name@);
            &&& (r is Some <==> names.contains(active.name@))
            &&& (r is Some ==> r.unwrap().deep_view() == spec_dependency_order(
                graph.nodes@,
                ((li + 1) as usize),
            ).map_values(|k: usize| graph.nodes@[k as int].package@).push(active@))
        }),
{
    match graph.get_package_dependencies_build_order(active.name.as_str()) {
        Option::None => Option::None,
        Option::Some(mut pkgs) => {
            let ghost pre = pkgs.deep_view();
            pkgs.push(active.clone());
            proof {
                assert(pkgs.deep_view() =~= pre.push(active@));
            }
            Option::Some(pkgs)
        },
    }
}

/// Whether the list holds either of the two flags.
pub fn array_includes_either(arr: &Vec<&str>, a: &str, b: &str) -> (r: bool)
    ensures
        r == (exists|i: int|
            0 <= i < arr@.len() && ((#[trigger] arr@[i])@ == a@ || arr@[i]@ == b@)),
{
    let mut i: usize = 0;
    while i < arr.len()
        invariant
            i <= arr@.len(),
            forall|k: int| 0 <= k < i ==> (#[trigger] arr@[k])@ != a@ && arr@[k]@ != b@,
        decreases arr@.len() - i,
    {
        if str_eq(arr[i], a) || str_eq(arr[i], b) {
            return true;
        }
        i += 1;
    }
    false
}

} // verus!
