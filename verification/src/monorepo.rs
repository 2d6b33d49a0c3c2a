//! The workspace: its root, package manager, and member packages, and how
//! a member's manifest data becomes a [`Package`].

use vstd::prelude::*;
use vstd::string::StringExecFns;
use crate::graph::Graph;
use crate::graph::Package;
use crate::graph::PackageConfig;
use crate::graph::graph_of;
use crate::order::wf_nodes;
use crate::text::is_prefix;
use crate::text::join_path;
use crate::text::spec_join_path;
use crate::text::str_starts_with;

verus! {

/// The package manager that manages the workspace.
pub enum PackageManager {
    Pnpm,
    Bun,
}

impl PackageManager {
    /// The command prefix that runs a package script under this manager.
    pub fn run_cmd(&self) -> (args: Vec<&'static str>)
        ensures
            args@.len() == 3,
            (*self matches PackageManager::Pnpm ==> args@[0]@ == "pnpm"@),
            (*self matches PackageManager::Bun ==> args@[0]@ == "bun"@),
            args@[1]@ == "--silent"@,
            args@[2]@ == "run"@,
    {
        let mut args: Vec<&'static str> = Vec::new();
        match self {
            PackageManager::Pnpm => args.push("pnpm"),
            PackageManager::Bun => args.push("bun"),
        }
        args.push("--silent");
        args.push("run");
        args
    }
}

/// A workspace: its root directory, the package manager that owns it, and
/// the glob patterns naming its member packages.
pub struct Monorepo {
    pub root: String,
    pub package_manager: PackageManager,
    pub package_globs: Vec<String>,
}

impl Monorepo {
    /// Where the workspace's build cache lives: under the root.
    pub fn cache_dir(&self) -> (r: String)
        ensures
            r@ == spec_join_path(self.root@, ".cache"@),
    {
        join_path(self.root.as_str(), ".cache")
    }

    /// The glob patterns that name the members' manifest files: each
    /// member glob with the manifest name appended.
    pub fn manifest_globs(&self) -> (r: Vec<String>)
        ensures
            r@.len() == self.package_globs@.len(),
            forall|i: int|
                0 <= i < r@.len() ==> (#[trigger] r@[i])@ == self.package_globs@[i]@
                    + "/package.json"@,
    {
        let mut r: Vec<String> = Vec::new();
        let mut i: usize = 0;
        while i < self.package_globs.len()
            invariant
                i <= self.package_globs@.len(),
                r@.len() == i,
                forall|k: int|
                    0 <= k < i ==> (#[trigger] r@[k])@ == self.package_globs@[k]@
                        + "/package.json"@,
            decreases self.package_globs@.len() - i,
        {
            let mut g = self.package_globs[i].clone();
            g.append("/package.json");
            r.push(g);
            i += 1;
        }
        r
    }

    /// The dependency graph of the workspace's packages.
    pub fn to_graph(&self, packages: Vec<Package>) -> (g: Graph)
        ensures
            graph_of(packages.deep_view(), g.nodes@),
            wf_nodes(g.nodes@),
    {
        Graph::new(packages)
    }
}

/// The version prefix that marks a declared dependency as a workspace
/// member.
pub open spec fn workspace_version_prefix() -> Seq<char> {
    "workspace:"@
}

/// The names among the declared `(name, version)` pairs whose version
/// carries the workspace prefix, in declaration order.
pub open spec fn spec_workspace_deps(pairs: Seq<(Seq<char>, Seq<char>)>) -> Seq<Seq<char>>
    decreases pairs.len(),
{
    if pairs.len() == 0 {
        Seq::<Seq<char>>::empty()
    } else {
        let rest = spec_workspace_deps(pairs.drop_last());
        if is_prefix(workspace_version_prefix(), pairs.last().1) {
            rest.push(pairs.last().0)
        } else {
            rest
        }
    }
}

/// Collect the workspace-local dependency names of a manifest: those of
/// its dependencies, then those of its development dependencies, keeping
/// declaration order and dropping everything versioned from outside the
/// workspace.
#[verifier::loop_isolation(false)]
pub fn workspace_dependency_names(
    dependencies: &Vec<(String, String)>,
    dev_dependencies: &Vec<(String, String)>,
) -> (r: Vec<String>)
    ensures
        r.deep_view() == spec_workspace_deps(dependencies.deep_view()) + spec_workspace_deps(
            dev_dependencies.deep_view(),
        ),
{
    let ghost d1 = dependencies.deep_view();
    let ghost d2 = dev_dependencies.deep_view();
    let mut r: Vec<String> = Vec::new();
    proof {
        assert(d1.take(0) =~= Seq::<(Seq<char>, Seq<char>)>::empty());
        assert(r.deep_view() =~= spec_workspace_deps(d1.take(0)));
    }
    let mut i: usize = 0;
    while i < dependencies.len()
        invariant
            i <= d1.len(),
            r.deep_view() == spec_workspace_deps(d1.take(i as int)),
        decreases d1.len() - i,
    {
        let ghost pre = r.deep_view();
        if str_starts_with(dependencies[i].1.as_str(), "workspace:") {
            r.push(dependencies[i].0.clone());
            proof {
                assert(r.deep_view() =~= pre.push(d1[i as int].0));
            }
        }
        proof {
            assert(d1.take(i as int + 1).drop_last() =~= d1.take(i as int));
            assert(d1.take(i as int + 1).last() == d1[i as int]);
        }
        i += 1;
    }
    proof {
        assert(d1.take(d1.len() as int) =~= d1);
        assert(d2.take(0) =~= Seq::<(Seq<char>, Seq<char>)>::empty());
        assert(spec_workspace_deps(d2.take(0)) =~= Seq::<Seq<char>>::empty());
        assert(r.deep_view() =~= spec_workspace_deps(d1) + spec_workspace_deps(d2.take(0)));
    }
    let mut j: usize = 0;
    while j < dev_dependencies.len()
        invariant
            j <= d2.len(),
            r.deep_view() == spec_workspace_deps(d1) + spec_workspace_deps(d2.take(j as int)),
        decreases d2.len() - j,
    {
        let ghost pre = r.deep_view();
        if str_starts_with(dev_dependencies[j].1.as_str(), "workspace:") {
            r.push(dev_dependencies[j].0.clone());
            proof {
                assert(r.deep_view() =~= pre.push(d2[j as int].0));
            }
        }
        proof {
            assert(d2.take(j as int + 1).drop_last() =~= d2.take(j as int));
            assert(d2.take(j as int + 1).last() == d2[j as int]);
            assert(r.deep_view() =~= spec_workspace_deps(d1) + spec_workspace_deps(
                d2.take(j as int + 1),
            ));
        }
        j += 1;
    }
    proof {
        assert(d2.take(d2.len() as int) =~= d2);
    }
    r
}

/// Assemble a package from the plain values read out of its manifest: the
/// dependency names are the declared dependencies and development
/// dependencies whose version marks them as workspace members.
pub fn package_from_manifest(
    name: String,
    dir: String,
    build_script: Option<String>,
    dependencies: &Vec<(String, String)>,
    dev_dependencies: &Vec<(String, String)>,
    config: PackageConfig,
) -> (p: Package)
    ensures
        p.name == name,
        p.dir == dir,
        p.build_script == build_script,
        p.config == config,
        p.dependency_names.deep_view() == spec_workspace_deps(dependencies.deep_view())
            + spec_workspace_deps(dev_dependencies.deep_view()),
{
    let dependency_names = workspace_dependency_names(dependencies, dev_dependencies);
    Package { dir, name, build_script, dependency_names, config }
}

} // verus!
