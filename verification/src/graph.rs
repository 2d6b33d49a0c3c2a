//! Packages, the dependency graph, and its build-order queries.
//!
//! The graph is an arena of nodes addressed by index.  Index `0` is a
//! synthetic root that owns every package as a direct child, so the build
//! order of the whole workspace is the root's dependency order.

use vstd::prelude::*;
use vstd::string::StringExecFns;
use crate::order::DfsState;
use crate::order::dfs_node;
use crate::order::dfs_seq;
use crate::order::depth0;
use crate::order::init_state;
use crate::order::unvisited_count;
use crate::order::visited_set;
use crate::order::id_views;
use crate::order::id_seq;
use crate::order::wf_children;
use crate::order::wf_nodes;
use crate::order::lemma_dfs_node_frame;
use crate::order::lemma_dfs_seq_frame;
use crate::order::lemma_dfs_seq_depth;
use crate::order::lemma_id_in_all;
use crate::order::lemma_unvisited_insert_fresh;
use crate::order::lemma_unvisited_le;
use crate::order::lemma_unvisited_monotone;
use crate::order::spec_dependency_order;
use crate::order::spec_overall_order;
use crate::text::spec_join_path;
use crate::text::join_path;
use crate::text::path_in_dir;
use crate::text::path_starts_with_dir;
use crate::text::str_eq;

verus! {

/// Mathematical image of a [`PackageConfig`].
pub ghost struct ConfigModel {
    pub cache: bool,
    pub out_dir: Seq<char>,
    pub includes: Seq<Seq<char>>,
    pub excludes: Seq<Seq<char>>,
}

/// Mathematical image of a [`Package`].
pub ghost struct PackageModel {
    pub dir: Seq<char>,
    pub name: Seq<char>,
    pub build_script: Option<Seq<char>>,
    pub dependency_names: Seq<Seq<char>>,
    pub config: ConfigModel,
}

/// Per-package settings for the build cache.
pub struct PackageConfig {
    /// Whether the build output should be cached.
    pub cache: bool,
    /// Where the build writes its output, relative to the package directory.
    pub out_dir: String,
    /// Glob patterns selecting the files whose content keys the cache.
    pub includes: Vec<String>,
    /// Glob patterns removed from that selection.
    pub excludes: Vec<String>,
}

impl View for PackageConfig {
    type V = ConfigModel;

    open spec fn view(&self) -> ConfigModel {
        ConfigModel {
            cache: self.cache,
            out_dir: self.out_dir@,
            includes: self.includes.deep_view(),
            excludes: self.excludes.deep_view(),
        }
    }
}

impl DeepView for PackageConfig {
    type V = ConfigModel;

    open spec fn deep_view(&self) -> ConfigModel {
        self.view()
    }
}

/// A workspace member: a named directory with an optional build command,
/// declared dependencies, and cache settings.
pub struct Package {
    pub dir: String,
    pub name: String,
    pub build_script: Option<String>,
    pub dependency_names: Vec<String>,
    pub config: PackageConfig,
}

impl View for Package {
    type V = PackageModel;

    open spec fn view(&self) -> PackageModel {
        PackageModel {
            dir: self.dir@,
            name: self.name@,
            build_script: self.build_script.deep_view(),
            dependency_names: self.dependency_names.deep_view(),
            config: self.config@,
        }
    }
}

impl DeepView for Package {
    type V = PackageModel;

    open spec fn deep_view(&self) -> PackageModel {
        self.view()
    }
}

/// Copy a list of strings, keeping each element.
fn clone_strings(v: &Vec<String>) -> (r: Vec<String>)
    ensures
        r@ == v@,
{
    let mut r: Vec<String> = Vec::new();
    let mut i: usize = 0;
    while i < v.len()
        invariant
            i <= v@.len(),
            r@.len() == i,
            forall|k: int| 0 <= k < i ==> r@[k] == v@[k],
        decreases v@.len() - i,
    {
        r.push(v[i].clone());
        i += 1;
    }
    proof {
        assert(r@ =~= v@);
    }
    r
}

/// Copy an optional string, keeping its value.
fn clone_opt_string(v: &Option<String>) -> (r: Option<String>)
    ensures
        r == *v,
{
    match v {
        Option::None => Option::None,
        Option::Some(s) => Option::Some(s.clone()),
    }
}

impl Clone for PackageConfig {
    fn clone(&self) -> (r: Self)
        ensures
            r@ == self@,
    {
        PackageConfig {
            cache: self.cache,
            out_dir: self.out_dir.clone(),
            includes: clone_strings(&self.includes),
            excludes: clone_strings(&self.excludes),
        }
    }
}

impl Clone for Package {
    fn clone(&self) -> (r: Self)
        ensures
            r@ == self@,
    {
        Package {
            dir: self.dir.clone(),
            name: self.name.clone(),
            build_script: clone_opt_string(&self.build_script),
            dependency_names: clone_strings(&self.dependency_names),
            config: self.config.clone(),
        }
    }
}

/// The default tracked-file selection: everything under `src`.
pub open spec fn default_includes() -> Seq<Seq<char>> {
    seq!["src/**/*"@]
}

/// The default exclusions: test trees and build artifacts.
pub open spec fn default_excludes() -> Seq<Seq<char>> {
    seq![
        "**/__tests__/**"@,
        "**/__mocks__/**"@,
        "**/*.test.*"@,
        "**/e2e/**"@,
        "**/dist/**"@,
        "**/.output/**"@,
    ]
}

/// The configuration a package gets when its manifest says nothing:
/// cached, output under `dist`, sources under `src` tracked.
pub open spec fn config_is_default(c: ConfigModel) -> bool {
    &&& c.cache == true
    &&& c.out_dir == "dist"@
    &&& c.includes == default_includes()
    &&& c.excludes == default_excludes()
}

impl PackageConfig {
    /// The configuration used when a manifest gives none.
    pub fn default() -> (c: PackageConfig)
        ensures
            config_is_default(c@),
    {
        let mut includes: Vec<String> = Vec::new();
        includes.push(String::from_str("src/**/*"));
        let mut excludes: Vec<String> = Vec::new();
        excludes.push(String::from_str("**/__tests__/**"));
        excludes.push(String::from_str("**/__mocks__/**"));
        excludes.push(String::from_str("**/*.test.*"));
        excludes.push(String::from_str("**/e2e/**"));
        excludes.push(String::from_str("**/dist/**"));
        excludes.push(String::from_str("**/.output/**"));
        let c = PackageConfig { cache: true, out_dir: String::from_str("dist"), includes, excludes };
        proof {
            assert(c@.includes =~= default_includes());
            assert(c@.excludes =~= default_excludes());
        }
        c
    }

    /// Build a configuration from the optional fields of a manifest's tool
    /// section, filling each absent field with its default.
    pub fn from_parts(
        cache: Option<bool>,
        out_dir: Option<String>,
        includes: Option<Vec<String>>,
        excludes: Option<Vec<String>>,
    ) -> (c: PackageConfig)
        ensures
            c.cache == (match cache {
                Option::Some(b) => b,
                Option::None => true,
            }),
            (match out_dir {
                Option::Some(s) => c.out_dir@ == s@,
                Option::None => c.out_dir@ == "dist"@,
            }),
            (match includes {
                Option::Some(v) => c@.includes == v.deep_view(),
                Option::None => c@.includes == default_includes(),
            }),
            (match excludes {
                Option::Some(v) => c@.excludes == v.deep_view(),
                Option::None => c@.excludes == default_excludes(),
            }),
    {
        let defaults = PackageConfig::default();
        let cache_v: bool = match cache {
            Option::Some(b) => b,
            Option::None => true,
        };
        let out_dir_v: String = match out_dir {
            Option::Some(s) => s,
            Option::None => defaults.out_dir,
        };
        let includes_v: Vec<String> = match includes {
            Option::Some(v) => v,
            Option::None => defaults.includes,
        };
        let excludes_v: Vec<String> = match excludes {
            Option::Some(v) => v,
            Option::None => defaults.excludes,
        };
        PackageConfig { cache: cache_v, out_dir: out_dir_v, includes: includes_v, excludes: excludes_v }
    }
}

impl Package {
    /// The package's output directory as a full path: its directory joined
    /// with the configured output directory.
    pub fn absolute_out_dir(&self) -> (r: String)
        ensures
            r@ == spec_join_path(self.dir@, self.config.out_dir@),
    {
        join_path(self.dir.as_str(), self.config.out_dir.as_str())
    }
}

/// One node of the graph arena: a package, its id (the package name), and
/// the arena indices of its dependency nodes, in declaration order.
pub struct Node {
    pub id: String,
    pub package: Package,
    pub children: Vec<usize>,
}

impl Node {
    /// A node for the given package, with no edges yet.
    pub fn new(package: Package) -> (n: Node)
        ensures
            n.id == package.name,
            n.package == package,
            n.children@ == Seq::<usize>::empty(),
    {
        let id = package.name.clone();
        let n = Node { id, package, children: Vec::new() };
        proof {
            assert(n.children@ =~= Seq::<usize>::empty());
        }
        n
    }

    /// Add a dependency edge to the node at the given arena index.
    pub fn add_child(&mut self, child: usize)
        ensures
            final(self).id == old(self).id,
            final(self).package == old(self).package,
            final(self).children@ == old(self).children@.push(child),
    {
        self.children.push(child);
    }
}

/// The names of the packages, in list order.
pub open spec fn package_names(packages: Seq<PackageModel>) -> Seq<Seq<char>> {
    packages.map_values(|p: PackageModel| p.name)
}

/// The largest index at which `name` occurs, or `-1` if it does not: when
/// several packages share a name, the one declared last wins.
pub open spec fn last_name_index(names: Seq<Seq<char>>, name: Seq<char>) -> int
    decreases names.len(),
{
    if names.len() == 0 {
        -1
    } else if names.last() == name {
        names.len() - 1
    } else {
        last_name_index(names.drop_last(), name)
    }
}

/// The arena indices a package's declared dependencies resolve to, in
/// declaration order; names that match no package are dropped.  Package
/// `k` of the list sits at arena index `k + 1`.
pub open spec fn resolve_deps(names: Seq<Seq<char>>, deps: Seq<Seq<char>>) -> Seq<usize>
    decreases deps.len(),
{
    if deps.len() == 0 {
        Seq::<usize>::empty()
    } else {
        let rest = resolve_deps(names, deps.drop_last());
        let idx = last_name_index(names, deps.last());
        if idx >= 0 {
            rest.push((idx + 1) as usize)
        } else {
            rest
        }
    }
}

/// Where `last_name_index` points and what it means: a non-negative result
/// is the last position holding the name, and `-1` means the name is absent.
pub proof fn lemma_last_name_index(names: Seq<Seq<char>>, name: Seq<char>)
    ensures
        last_name_index(names, name) == -1 <==> !names.contains(name),
        last_name_index(names, name) >= 0 ==> {
            &&& last_name_index(names, name) < names.len()
            &&& names[last_name_index(names, name)] == name
        },
    decreases names.len(),
{
    if names.len() > 0 {
        lemma_last_name_index(names.drop_last(), name);
        if names.last() == name {
            assert(names[names.len() - 1] == name);
            assert(names.contains(name));
        } else {
            if names.contains(name) {
                let j = choose|j: int| 0 <= j < names.len() && names[j] == name;
                assert(names.drop_last()[j] == name);
                assert(names.drop_last().contains(name));
            }
            if names.drop_last().contains(name) {
                let j = choose|j: int|
                    0 <= j < names.drop_last().len() && names.drop_last()[j] == name;
                assert(names[j] == name);
                assert(names.contains(name));
            }
            if last_name_index(names.drop_last(), name) >= 0 {
                let li = last_name_index(names.drop_last(), name);
                assert(names[li] == names.drop_last()[li]);
            }
        }
    }
}

/// The root package that the synthetic root node carries: named `root`,
/// with no directory, no build command and no dependencies.
pub open spec fn is_root_package(p: PackageModel) -> bool {
    &&& p.name == "root"@
    &&& p.dir == Seq::<char>::empty()
    &&& p.build_script is None
    &&& p.dependency_names == Seq::<Seq<char>>::empty()
    &&& config_is_default(p.config)
}

/// How an arena relates to the package list it was built from: one node
/// per package after the synthetic root, the root owning every package,
/// and each package's edges resolved by name, last declaration winning.
pub open spec fn graph_of(packages: Seq<PackageModel>, nodes: Seq<Node>) -> bool {
    &&& nodes.len() == packages.len() + 1
    &&& nodes[0].id@ == "root"@
    &&& is_root_package(nodes[0].package@)
    &&& nodes[0].children@ == Seq::new(packages.len(), |k: int| (k + 1) as usize)
    &&& forall|j: int|
        1 <= j < nodes.len() ==> {
            &&& (#[trigger] nodes[j]).package@ == packages[j - 1]
            &&& nodes[j].id@ == packages[j - 1].name
            &&& nodes[j].children@ == resolve_deps(package_names(packages), packages[j - 1].dependency_names)
        }
}

/// The dependency graph of a workspace.
pub struct Graph {
    /// The node arena; index `0` is the synthetic root.
    pub nodes: Vec<Node>,
}

impl Graph {
    /// Build the graph: one node per package, all of them children of a
    /// synthetic root, and an edge for every declared dependency whose
    /// name resolves to a package of the workspace.
    pub fn new(packages: Vec<Package>) -> (g: Graph)
        ensures
            graph_of(packages.deep_view(), g.nodes@),
            wf_nodes(g.nodes@),
    {
        let n = packages.len();
        let ghost pm = packages.deep_view();
        let ghost names = package_names(pm);

        // The synthetic root, with every package as a child.
        let root_package = Package {
            dir: String::new(),
            name: String::from_str("root"),
            build_script: Option::None,
            dependency_names: Vec::new(),
            config: PackageConfig::default(),
        };
        proof {
            assert(root_package@.dependency_names =~= Seq::<Seq<char>>::empty());
        }
        let mut root = Node::new(root_package);
        let mut k: usize = 0;
        while k < n
            invariant
                k <= n,
                root.children@ =~= Seq::new(k as nat, |m: int| (m + 1) as usize),
                root.id@ == "root"@,
                is_root_package(root.package@),
            decreases n - k,
        {
            root.add_child(k + 1);
            proof {
                assert(root.children@ =~= Seq::new((k + 1) as nat, |m: int| (m + 1) as usize));
            }
            k += 1;
        }

        let mut nodes: Vec<Node> = Vec::new();
        nodes.push(root);

        let mut i: usize = 0;
        while i < n
            invariant
                i <= n,
                n == packages@.len(),
                pm == packages.deep_view(),
                names == package_names(pm),
                nodes@.len() == i + 1,
                nodes@[0].id@ == "root"@,
                is_root_package(nodes@[0].package@),
                nodes@[0].children@ == Seq::new(n as nat, |m: int| (m + 1) as usize),
                forall|j: int|
                    1 <= j < nodes@.len() ==> {
                        &&& (#[trigger] nodes@[j]).package@ == pm[j - 1]
                        &&& nodes@[j].id@ == pm[j - 1].name
                        &&& nodes@[j].children@ == resolve_deps(names, pm[j - 1].dependency_names)
                        &&& wf_children(nodes@[j].children@, (n + 1) as nat)
                    },
            decreases n - i,
    {
            let mut node = Node::new(packages[i].clone());
            let ghost deps = pm[i as int].dependency_names;
            let deps_len = packages[i].dependency_names.len();
            let mut children: Vec<usize> = Vec::new();
            let mut j: usize = 0;
            while j < deps_len
                invariant
                    j <= deps_len,
                    i < n,
                    n == packages@.len(),
                    pm == packages.deep_view(),
                    names == package_names(pm),
                    deps == pm[i as int].dependency_names,
                    deps_len == deps.len(),
                    children@ == resolve_deps(names, deps.take(j as int)),
                    wf_children(children@, (n + 1) as nat),
                decreases deps_len - j,
            {
                // Find the package declared last under this name, if any.
                let mut found: Option<usize> = Option::None;
                let mut t: usize = 0;
                while t < n
                    invariant
                        t <= n,
                        i < n,
                        j < deps_len,
                        n == packages@.len(),
                        pm == packages.deep_view(),
                        names == package_names(pm),
                        deps == pm[i as int].dependency_names,
                        deps_len == deps.len(),
                        (match found {
                            Option::Some(f) => last_name_index(names.take(t as int), deps[j as int]) == f as int && (f as int) < n,
                            Option::None => last_name_index(names.take(t as int), deps[j as int]) == -1,
                        }),
                    decreases n - t,
                {
                    if packages[t].name == packages[i].dependency_names[j] {
                        found = Option::Some(t);
                    }
                    proof {
                        assert(names.take(t + 1).drop_last() =~= names.take(t as int));
                        assert(names.take(t + 1).last() == pm[t as int].name);
                        assert(pm[t as int].name == packages@[t as int].name@);
                        assert(deps[j as int] == packages@[i as int].dependency_names@[j as int]@);
                    }
                    t += 1;
                }
                proof {
                    assert(names.take(n as int) =~= names);
                    assert(deps.take(j + 1).drop_last() =~= deps.take(j as int));
                    assert(deps.take(j + 1).last() == deps[j as int]);
                }
                match found {
                    Option::Some(f) => {
                        children.push(f + 1);
                    },
                    Option::None => {},
                }
                j += 1;
            }
            proof {
                assert(deps.take(deps_len as int) =~= deps);
            }
            node.children = children;
            nodes.push(node);
            i += 1;
        }
        let g = Graph { nodes };
        proof {
            assert(graph_of(pm, g.nodes@));
        }
        g
    }
}

/// Whether one of the strings holds the given characters.
fn contains_string(v: &Vec<String>, s: &String) -> (r: bool)
    ensures
        r == visited_set(v@).contains(s@),
{
    let mut i: usize = 0;
    while i < v.len()
        invariant
            i <= v@.len(),
            forall|k: int| 0 <= k < i ==> (#[trigger] v@[k])@ != s@,
        decreases v@.len() - i,
    {
        if *s == v[i] {
            proof {
                assert(id_views(v@)[i as int] == s@);
                assert(id_views(v@).contains(s@));
            }
            return true;
        }
        i += 1;
    }
    proof {
        assert forall|k: int| 0 <= k < id_views(v@).len() implies #[trigger] id_views(v@)[k]
            != s@ by {
            assert(id_views(v@)[k] == v@[k]@);
        }
        assert(!id_views(v@).contains(s@));
    }
    false
}

/// Visit the node at index `i`, threading the seen-id list and the emitted
/// order through, exactly as [`dfs_node`] describes.
#[verifier::loop_isolation(false)]
fn depth_first_search(nodes: &Vec<Node>, i: usize, visited: Vec<String>, order: Vec<usize>) -> (res: (
    Vec<String>,
    Vec<usize>,
))
    requires
        wf_nodes(nodes@),
        (i as int) < nodes@.len(),
    ensures
        ({
            let st2 = dfs_node(
                nodes@,
                i,
                DfsState { visited: visited_set(visited@), order: order@ },
                depth0(nodes@),
            );
            visited_set(res.0@) == st2.visited && res.1@ == st2.order
        }),
    decreases unvisited_count(nodes@, visited_set(visited@)),
{
    let ghost st0 = DfsState { visited: visited_set(visited@), order: order@ };
    let ghost d0 = depth0(nodes@);
    if contains_string(&visited, &nodes[i].id) {
        return (visited, order);
    }
    let id = nodes[i].id.clone();
    let mut visited = visited;
    let mut order = order;
    let ghost st1 = DfsState {
        visited: st0.visited.insert(nodes@[i as int].id@),
        order: st0.order,
    };
    let ghost vpre = visited@;
    visited.push(id);
    proof {
        vpre.lemma_push_map_commute(|t: String| t@, nodes@[i as int].id);
        vpre.map_values(|t: String| t@).lemma_push_to_set_commute(nodes@[i as int].id@);
        assert(visited_set(visited@) == st1.visited);
        lemma_id_in_all(nodes@, i as int);
        lemma_unvisited_insert_fresh(nodes@, st0.visited, nodes@[i as int].id@);
    }
    let ghost children_g = nodes@[i as int].children@;
    proof {
        assert(children_g.skip(0) =~= children_g);
        assert(wf_children(children_g, nodes@.len() as nat));
    }
    let n_children = nodes[i].children.len();
    let mut k: usize = 0;
    while k < n_children
        invariant
            k <= n_children,
            wf_nodes(nodes@),
            (i as int) < nodes@.len(),
            n_children == children_g.len(),
            children_g == nodes@[i as int].children@,
            d0 == depth0(nodes@),
            st1.visited.subset_of(visited_set(visited@)),
            unvisited_count(nodes@, st1.visited) < unvisited_count(nodes@, st0.visited),
            dfs_seq(nodes@, children_g, st1, d0) == dfs_seq(
                nodes@,
                children_g.skip(k as int),
                DfsState { visited: visited_set(visited@), order: order@ },
                d0,
            ),
        decreases n_children - k,
    {
        let c = nodes[i].children[k];
        let ghost cur = DfsState { visited: visited_set(visited@), order: order@ };
        proof {
            assert((children_g[k as int] as nat) < nodes@.len());
            lemma_unvisited_monotone(nodes@, st1.visited, cur.visited);
        }
        let r = depth_first_search(nodes, c, visited, order);
        visited = r.0;
        order = r.1;
        proof {
            assert(children_g.skip(k as int)[0] == c);
            assert(children_g.skip(k as int).drop_first() =~= children_g.skip(k as int + 1));
            lemma_dfs_node_frame(nodes@, c, cur, d0);
        }
        k += 1;
    }
    proof {
        assert(children_g.skip(n_children as int) =~= Seq::<usize>::empty());
    }
    let ghost cur = DfsState { visited: visited_set(visited@), order: order@ };
    proof {
        assert(cur == dfs_seq(nodes@, children_g, st1, d0));
        lemma_unvisited_le(nodes@, st0.visited);
        lemma_dfs_seq_depth(nodes@, children_g, st1, (d0 - 1) as nat, d0);
        assert(dfs_node(nodes@, i, st0, d0).order == cur.order.push(i));
        assert(dfs_node(nodes@, i, st0, d0).visited == cur.visited);
    }
    order.push(i);
    (visited, order)
}

impl Node {
    /// The node's dependencies in build order: every node reachable through
    /// its children, each emitted after its own dependencies, each id at
    /// most once, and the node itself excluded.  Returns arena indices.
    #[verifier::loop_isolation(false)]
    pub fn get_dependency_build_order(&self, nodes: &Vec<Node>) -> (order: Vec<usize>)
        requires
            wf_nodes(nodes@),
            wf_children(self.children@, nodes@.len() as nat),
        ensures
            order@ == dfs_seq(nodes@, self.children@, init_state(), depth0(nodes@)).order,
    {
        let ghost d0 = depth0(nodes@);
        let ghost children_g = self.children@;
        let mut visited: Vec<String> = Vec::new();
        let mut order: Vec<usize> = Vec::new();
        proof {
            assert(id_views(visited@) =~= Seq::<Seq<char>>::empty());
            assert(visited_set(visited@) =~= Set::<Seq<char>>::empty());
            assert(DfsState { visited: visited_set(visited@), order: order@ } == init_state());
            assert(children_g.skip(0) =~= children_g);
        }
        let n_children = self.children.len();
        let mut k: usize = 0;
        while k < n_children
            invariant
                k <= n_children,
                wf_nodes(nodes@),
                n_children == children_g.len(),
                children_g == self.children@,
                wf_children(children_g, nodes@.len() as nat),
                d0 == depth0(nodes@),
                dfs_seq(nodes@, children_g, init_state(), d0) == dfs_seq(
                    nodes@,
                    children_g.skip(k as int),
                    DfsState { visited: visited_set(visited@), order: order@ },
                    d0,
                ),
            decreases n_children - k,
        {
            let c = self.children[k];
            let ghost cur = DfsState { visited: visited_set(visited@), order: order@ };
            proof {
                assert((children_g[k as int] as nat) < nodes@.len());
            }
            let r = depth_first_search(nodes, c, visited, order);
            visited = r.0;
            order = r.1;
            proof {
                assert(children_g.skip(k as int)[0] == c);
                assert(children_g.skip(k as int).drop_first() =~= children_g.skip(k as int + 1));
            }
            k += 1;
        }
        proof {
            assert(children_g.skip(n_children as int) =~= Seq::<usize>::empty());
        }
        order
    }
}

impl Graph {
    /// All packages of the workspace in build order: every package after
    /// its transitive dependencies, each exactly once.
    pub fn get_overall_build_order(&self) -> (order: Vec<Package>)
        requires
            wf_nodes(self.nodes@),
            self.nodes@.len() >= 1,
        ensures
            order.deep_view() == spec_overall_order(self.nodes@).map_values(
                |k: usize| self.nodes@[k as int].package@,
            ),
    {
        self.build_order_of_node_index(0)
    }

    /// The build order rooted at a given arena index, as packages.
    #[verifier::loop_isolation(false)]
    fn build_order_of_node_index(&self, i: usize) -> (order: Vec<Package>)
        requires
            wf_nodes(self.nodes@),
            (i as int) < self.nodes@.len(),
        ensures
            order.deep_view() == spec_dependency_order(self.nodes@, i).map_values(
                |k: usize| self.nodes@[k as int].package@,
            ),
    {
        proof {
            assert(wf_children(self.nodes@[i as int].children@, self.nodes@.len() as nat));
        }
        let idxs = self.nodes[i].get_dependency_build_order(&self.nodes);
        let ghost ord = spec_dependency_order(self.nodes@, i);
        proof {
            lemma_dfs_seq_frame(
                self.nodes@,
                self.nodes@[i as int].children@,
                init_state(),
                depth0(self.nodes@),
            );
        }
        let mut order: Vec<Package> = Vec::new();
        let mut m: usize = 0;
        while m < idxs.len()
            invariant
                m <= idxs@.len(),
                idxs@ == ord,
                wf_nodes(self.nodes@),
                forall|t: int| 0 <= t < ord.len() ==> ((#[trigger] ord[t]) as int) < self.nodes@.len(),
                order.deep_view() =~= ord.take(m as int).map_values(
                    |k: usize| self.nodes@[k as int].package@,
                ),
            decreases idxs@.len() - m,
        {
            let idx = idxs[m];
            let ghost pre = order.deep_view();
            order.push(self.nodes[idx].package.clone());
            proof {
                let f = |k: usize| self.nodes@[k as int].package@;
                assert(order.deep_view() =~= pre.push(self.nodes@[idx as int].package@));
                assert forall|t: int| 0 <= t < m + 1 implies order.deep_view()[t] == ord.take(
                    m as int + 1,
                ).map_values(f)[t] by {
                    assert(ord.take(m as int + 1)[t] == ord[t]);
                    if t < m {
                        assert(pre[t] == ord.take(m as int).map_values(f)[t]);
                        assert(ord.take(m as int)[t] == ord[t]);
                    }
                }
                assert(order.deep_view() =~= ord.take(m as int + 1).map_values(f));
            }
            m += 1;
        }
        proof {
            assert(ord.take(ord.len() as int) =~= ord);
        }
        order
    }

    /// The dependencies of the named package in build order, or nothing if
    /// no package has that name.  When several packages share the name, the
    /// one declared last is queried.
    #[verifier::loop_isolation(false)]
    pub fn get_package_dependencies_build_order(&self, package_name: &str) -> (r: Option<
        Vec<Package>,
    >)
        requires
            wf_nodes(self.nodes@),
            self.nodes@.len() >= 1,
        ensures
            ({
                let names = id_seq(self.nodes@).skip(1);
                let li = last_name_index(names, package_name@);
                &&& (r is Some <==> names.contains(package_name@))
                &&& (r is Some ==> r.unwrap().deep_view() == spec_dependency_order(
                    self.nodes@,
                    ((li + 1) as usize),
                ).map_values(|k: usize| self.nodes@[k as int].package@))
            }),
    {
        let n = self.nodes.len();
        let ghost names = id_seq(self.nodes@).skip(1);
        let mut found: Option<usize> = Option::None;
        let mut u: usize = 0;
        while u < n - 1
            invariant
                u <= n - 1,
                (match found {
                    Option::Some(f) => last_name_index(names.take(u as int), package_name@)
                        == f as int && (f as int) < n - 1,
                    Option::None => last_name_index(names.take(u as int), package_name@) == -1,
                }),
            decreases n - 1 - u,
        {
            if str_eq(self.nodes[u + 1].id.as_str(), package_name) {
                found = Option::Some(u);
            }
            proof {
                assert(names.take(u as int + 1).drop_last() =~= names.take(u as int));
                assert(names[u as int] == id_seq(self.nodes@)[u as int + 1]);
                assert(id_seq(self.nodes@)[u as int + 1] == self.nodes@[u as int + 1].id@);
                assert(names.take(u as int + 1).last() == names[u as int]);
            }
            u += 1;
        }
        proof {
            assert(names.take((n - 1) as int) =~= names);
            lemma_last_name_index(names, package_name@);
        }
        match found {
            Option::Some(f) => Option::Some(self.build_order_of_node_index(f + 1)),
            Option::None => Option::None,
        }
    }
}

/// The first of the given nodes whose package directory contains `cwd`,
/// scanning in list order.
pub open spec fn spec_active_package_index(
    nodes: Seq<Node>,
    children: Seq<usize>,
    cwd: Seq<char>,
) -> Option<usize>
    decreases children.len(),
{
    if children.len() == 0 {
        Option::None
    } else if path_in_dir(nodes[children[0] as int].package.dir@, cwd) {
        Option::Some(children[0])
    } else {
        spec_active_package_index(nodes, children.drop_first(), cwd)
    }
}

impl Graph {
    /// The package whose directory contains the given working directory,
    /// looked for among the root's direct children in order; the first
    /// match wins, and a directory nested in another package is not found.
    #[verifier::loop_isolation(false)]
    pub fn find_active_package(&self, current_dir: &str) -> (r: Option<Package>)
        requires
            wf_nodes(self.nodes@),
            self.nodes@.len() >= 1,
        ensures
            ({
                let oi = spec_active_package_index(
                    self.nodes@,
                    self.nodes@[0].children@,
                    current_dir@,
                );
                match r {
                    Option::None => oi is None,
                    Option::Some(p) => oi is Some && p@ == self.nodes@[
                        oi.unwrap() as int
                    ].package@,
                }
            }),
    {
        let ghost children_g = self.nodes@[0].children@;
        proof {
            assert(children_g.skip(0) =~= children_g);
            assert(wf_children(children_g, self.nodes@.len() as nat));
        }
        let n_children = self.nodes[0].children.len();
        let mut k: usize = 0;
        while k < n_children
            invariant
                k <= n_children,
                spec_active_package_index(self.nodes@, children_g, current_dir@)
                    == spec_active_package_index(
                    self.nodes@,
                    children_g.skip(k as int),
                    current_dir@,
                ),
            decreases n_children - k,
        {
            let c = self.nodes[0].children[k];
            proof {
                assert((children_g[k as int] as nat) < self.nodes@.len());
                assert(children_g.skip(k as int)[0] == c);
                assert(children_g.skip(k as int).drop_first() =~= children_g.skip(k as int + 1));
            }
            if path_starts_with_dir(current_dir, self.nodes[c].package.dir.as_str()) {
                return Option::Some(self.nodes[c].package.clone());
            }
            k += 1;
        }
        proof {
            assert(children_g.skip(n_children as int) =~= Seq::<usize>::empty());
        }
        Option::None
    }
}

/// Two spaces of indentation per level of depth.
pub open spec fn spec_indent(depth: nat) -> Seq<char>
    decreases depth,
{
    if depth == 0 {
        Seq::<char>::empty()
    } else {
        spec_indent((depth - 1) as nat) + seq![' ', ' ']
    }
}

/// One line per node: its id as a bullet under its parent, its children
/// indented below it.  `fuel` bounds the nesting that is rendered; the
/// number of nodes suffices for any graph without dependency cycles, since
/// no acyclic path revisits a node.
pub open spec fn spec_render_node(nodes: Seq<Node>, i: usize, depth: nat, fuel: nat) -> Seq<char>
    decreases fuel, 0nat, 0nat,
{
    if fuel == 0 {
        Seq::<char>::empty()
    } else {
        spec_indent(depth) + seq!['-', ' '] + nodes[i as int].id@ + seq!['\n'] + spec_render_list(
            nodes,
            nodes[i as int].children@,
            (depth + 1) as nat,
            (fuel - 1) as nat,
        )
    }
}

/// The nodes of a list rendered one after the other.
pub open spec fn spec_render_list(
    nodes: Seq<Node>,
    todo: Seq<usize>,
    depth: nat,
    fuel: nat,
) -> Seq<char>
    decreases fuel, 1nat, todo.len(),
{
    if todo.len() == 0 {
        Seq::<char>::empty()
    } else {
        spec_render_list(nodes, todo.drop_last(), depth, fuel) + spec_render_node(
            nodes,
            todo.last(),
            depth,
            fuel,
        )
    }
}

/// Render the subtree below the node at index `i`.
#[verifier::loop_isolation(false)]
fn render_subtree(nodes: &Vec<Node>, i: usize, depth: usize, fuel: usize) -> (out: String)
    requires
        wf_nodes(nodes@),
        (i as int) < nodes@.len(),
        depth as int + fuel as int <= usize::MAX as int,
    ensures
        out@ == spec_render_node(nodes@, i, depth as nat, fuel as nat),
    decreases fuel,
{
    let mut out = String::new();
    if fuel == 0 {
        return out;
    }
    proof {
        reveal_strlit("  ");
        reveal_strlit("- ");
        reveal_strlit("\n");
    }
    let mut d: usize = 0;
    while d < depth
        invariant
            d <= depth,
            out@ == spec_indent(d as nat),
        decreases depth - d,
    {
        out.append("  ");
        proof {
            assert(out@ =~= spec_indent((d + 1) as nat));
        }
        d += 1;
    }
    out.append("- ");
    out.append(nodes[i].id.as_str());
    out.append("\n");
    let ghost prefix = spec_indent(depth as nat) + seq!['-', ' '] + nodes@[i as int].id@ + seq![
        '\n',
    ];
    let ghost children_g = nodes@[i as int].children@;
    proof {
        assert(out@ =~= prefix);
        assert(wf_children(children_g, nodes@.len() as nat));
        assert(children_g.take(0) =~= Seq::<usize>::empty());
        assert(out@ =~= prefix + spec_render_list(
            nodes@,
            children_g.take(0),
            (depth + 1) as nat,
            (fuel - 1) as nat,
        ));
    }
    let n_children = nodes[i].children.len();
    let mut k: usize = 0;
    while k < n_children
        invariant
            k <= n_children,
            out@ == prefix + spec_render_list(
                nodes@,
                children_g.take(k as int),
                (depth + 1) as nat,
                (fuel - 1) as nat,
            ),
        decreases n_children - k,
    {
        let c = nodes[i].children[k];
        proof {
            assert((children_g[k as int] as nat) < nodes@.len());
        }
        let sub = render_subtree(nodes, c, depth + 1, fuel - 1);
        out.append(sub.as_str());
        proof {
            assert(children_g.take(k as int + 1).drop_last() =~= children_g.take(k as int));
            assert(children_g.take(k as int + 1).last() == c);
            assert(out@ =~= prefix + spec_render_list(
                nodes@,
                children_g.take(k as int + 1),
                (depth + 1) as nat,
                (fuel - 1) as nat,
            ));
        }
        k += 1;
    }
    proof {
        assert(children_g.take(n_children as int) =~= children_g);
        assert(out@ =~= spec_render_node(nodes@, i, depth as nat, fuel as nat));
    }
    out
}

impl Node {
    /// Render this node as a bullet at the given depth, with the subtrees
    /// of its children indented below it, one nesting level per node of
    /// the arena at most.
    #[verifier::loop_isolation(false)]
    pub fn print(&self, nodes: &Vec<Node>, depth: usize) -> (out: String)
        requires
            wf_nodes(nodes@),
            wf_children(self.children@, nodes@.len() as nat),
            depth as int + nodes@.len() + 1 <= usize::MAX as int,
        ensures
            out@ == spec_indent(depth as nat) + seq!['-', ' '] + self.id@ + seq!['\n']
                + spec_render_list(
                nodes@,
                self.children@,
                (depth + 1) as nat,
                nodes@.len() as nat,
            ),
    {
        let mut out = String::new();
        proof {
            reveal_strlit("  ");
            reveal_strlit("- ");
            reveal_strlit("\n");
        }
        let mut d: usize = 0;
        while d < depth
            invariant
                d <= depth,
                out@ == spec_indent(d as nat),
            decreases depth - d,
        {
            out.append("  ");
            proof {
                assert(out@ =~= spec_indent((d + 1) as nat));
            }
            d += 1;
        }
        out.append("- ");
        out.append(self.id.as_str());
        out.append("\n");
        let ghost prefix = spec_indent(depth as nat) + seq!['-', ' '] + self.id@ + seq!['\n'];
        proof {
            assert(out@ =~= prefix);
            assert(self.children@.take(0) =~= Seq::<usize>::empty());
            assert(out@ =~= prefix + spec_render_list(
                nodes@,
                self.children@.take(0),
                (depth + 1) as nat,
                nodes@.len() as nat,
            ));
        }
        let ghost children_g = self.children@;
        let fuel = nodes.len();
        let n_children = self.children.len();
        let mut k: usize = 0;
        while k < n_children
            invariant
                k <= n_children,
                out@ == prefix + spec_render_list(
                    nodes@,
                    children_g.take(k as int),
                    (depth + 1) as nat,
                    nodes@.len() as nat,
                ),
            decreases n_children - k,
        {
            let c = self.children[k];
            proof {
                assert((children_g[k as int] as nat) < nodes@.len());
            }
            let sub = render_subtree(nodes, c, depth + 1, fuel);
            out.append(sub.as_str());
            proof {
                assert(children_g.take(k as int + 1).drop_last() =~= children_g.take(k as int));
                assert(children_g.take(k as int + 1).last() == c);
                assert(out@ =~= prefix + spec_render_list(
                    nodes@,
                    children_g.take(k as int + 1),
                    (depth + 1) as nat,
                    nodes@.len() as nat,
                ));
            }
            k += 1;
        }
        proof {
            assert(children_g.take(n_children as int) =~= children_g);
        }
        out
    }
}

impl Graph {
    /// Render the dependency graph: a heading, then every package under
    /// the root as a bulleted tree.
    #[verifier::loop_isolation(false)]
    pub fn print(&self) -> (out: String)
        requires
            wf_nodes(self.nodes@),
            self.nodes@.len() >= 1,
            self.nodes@.len() + 1 <= usize::MAX as int,
        ensures
            out@ == "Dependency Graph:\n"@ + spec_render_list(
                self.nodes@,
                self.nodes@[0].children@,
                0,
                self.nodes@.len() as nat,
            ),
    {
        let mut out = String::from_str("Dependency Graph:\n");
        let ghost heading = "Dependency Graph:\n"@;
        let ghost children_g = self.nodes@[0].children@;
        proof {
            assert(children_g.take(0) =~= Seq::<usize>::empty());
            assert(out@ =~= heading + spec_render_list(
                self.nodes@,
                children_g.take(0),
                0,
                self.nodes@.len() as nat,
            ));
        }
        let fuel = self.nodes.len();
        let n_children = self.nodes[0].children.len();
        let mut k: usize = 0;
        while k < n_children
            invariant
                k <= n_children,
                out@ == heading + spec_render_list(
                    self.nodes@,
                    children_g.take(k as int),
                    0,
                    self.nodes@.len() as nat,
                ),
            decreases n_children - k,
        {
            let c = self.nodes[0].children[k];
            proof {
                assert((children_g[k as int] as nat) < self.nodes@.len());
            }
            let sub = render_subtree(&self.nodes, c, 0, fuel);
            out.append(sub.as_str());
            proof {
                assert(children_g.take(k as int + 1).drop_last() =~= children_g.take(k as int));
                assert(children_g.take(k as int + 1).last() == c);
                assert(out@ =~= heading + spec_render_list(
                    self.nodes@,
                    children_g.take(k as int + 1),
                    0,
                    self.nodes@.len() as nat,
                ));
            }
            k += 1;
        }
        proof {
            assert(children_g.take(n_children as int) =~= children_g);
        }
        out
    }
}

} // verus!
