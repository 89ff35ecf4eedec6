//! In-memory representation of a resolved dependency graph: a flat arena of
//! packages whose edges are indices into the same arena.

use vstd::prelude::*;

verus! {

/// How a package participates in the build.
#[derive(Clone, Copy, PartialEq, Eq, Structural, Debug)]
pub enum PackageKind {
    Runtime,
    Build,
    Development,
}

/// One node of the dependency graph. Version strings are opaque here: no
/// semantic parsing of them happens at this layer.
#[derive(Clone, Debug, PartialEq, Eq)]
pub struct Package {
    pub name: String,
    pub version: String,
    /// Provenance of the package (registry, git, local path); absent for the
    /// root package.
    pub source: Option<String>,
    pub kind: PackageKind,
    /// Edges: indices of this package's dependencies in the owning graph's
    /// package list. A package never owns another package.
    pub dependencies: Vec<usize>,
}

/// Mathematical value of a [`Package`].
pub ghost struct PackageView {
    pub name: Seq<char>,
    pub version: Seq<char>,
    pub source: Option<Seq<char>>,
    pub kind: PackageKind,
    pub dependencies: Seq<usize>,
}

/// The value of an optional string.
pub open spec fn opt_view(o: Option<String>) -> Option<Seq<char>> {
    match o {
        Some(s) => Some(s@),
        None => None,
    }
}

impl View for Package {
    type V = PackageView;

    open spec fn view(&self) -> PackageView {
        PackageView {
            name: self.name@,
            version: self.version@,
            source: opt_view(self.source),
            kind: self.kind,
            dependencies: self.dependencies@,
        }
    }
}

/// The value of a whole package list.
pub open spec fn pkgs_view(ps: Seq<Package>) -> Seq<PackageView> {
    ps.map_values(|p: Package| p@)
}

/// Every dependency edge of `p` points at one of `n` packages.
pub open spec fn pkg_deps_ok(p: PackageView, n: nat) -> bool {
    forall|k: int| 0 <= k < p.dependencies.len() ==> (#[trigger] p.dependencies[k]) < n
}

/// Every edge of every package resolves to a valid index of the same graph.
pub open spec fn indices_ok(g: Seq<PackageView>) -> bool {
    forall|i: int| 0 <= i < g.len() ==> pkg_deps_ok(#[trigger] g[i], g.len())
}

/// Two packages with the same identity: same name, version and source.
pub open spec fn same_triple(a: PackageView, b: PackageView) -> bool {
    a.name == b.name && a.version == b.version && a.source == b.source
}

/// No two packages of the graph share the identical (name, version, source)
/// triple.
pub open spec fn triples_unique(g: Seq<PackageView>) -> bool {
    forall|i: int, j: int| 0 <= i < j < g.len() ==> !same_triple(#[trigger] g[i], #[trigger] g[j])
}

/// A valid dependency graph: resolvable edges and unique package identities.
pub open spec fn graph_wf(g: Seq<PackageView>) -> bool {
    indices_ok(g) && triples_unique(g)
}

/// Rejected input while building a graph; names the offending package by its
/// position in the supplied list.
#[derive(Clone, Copy, PartialEq, Eq, Structural, Debug)]
pub enum ModelError {
    /// The named package has a dependency edge that resolves to no package.
    DanglingDependency { package: usize },
    /// The named package repeats the (name, version, source) identity of an
    /// earlier package.
    DuplicatePackage { package: usize },
}

/// A resolved dependency graph: an arena of packages with index edges.
#[derive(Clone, Debug, PartialEq, Eq)]
pub struct DependencyGraph {
    pub packages: Vec<Package>,
}

impl View for DependencyGraph {
    type V = Seq<PackageView>;

    open spec fn view(&self) -> Seq<PackageView> {
        pkgs_view(self.packages@)
    }
}

/// Whether two optional strings hold the same text.
fn opt_str_eq(a: &Option<String>, b: &Option<String>) -> (r: bool)
    ensures
        r == (opt_view(*a) == opt_view(*b)),
{
    match (a, b) {
        (None, None) => true,
        (Some(x), Some(y)) => x.eq(y),
        _ => false,
    }
}

/// Whether two packages share the identical (name, version, source) triple.
fn same_triple_exec(a: &Package, b: &Package) -> (r: bool)
    ensures
        r == same_triple(a@, b@),
{
    a.name == b.name && a.version == b.version && opt_str_eq(&a.source, &b.source)
}

impl DependencyGraph {
    /// Builds a graph from the structured lockfile representation: an ordered
    /// list of packages with explicit index edges. Rejects a dangling
    /// dependency index or a repeated (name, version, source) identity,
    /// naming the first offending package; otherwise the graph holds exactly
    /// the given packages.
    pub fn new(packages: Vec<Package>) -> (r: Result<DependencyGraph, ModelError>)
        ensures
            r matches Ok(g) ==> g@ == pkgs_view(packages@) && graph_wf(g@),
            r is Ok <==> graph_wf(pkgs_view(packages@)),
            r matches Err(ModelError::DanglingDependency { package }) ==> {
                let v = pkgs_view(packages@);
                &&& 0 <= package < v.len()
                &&& !pkg_deps_ok(v[package as int], v.len())
                &&& forall|i: int| 0 <= i < package ==> pkg_deps_ok(#[trigger] v[i], v.len())
            },
            r matches Err(ModelError::DuplicatePackage { package }) ==> {
                let v = pkgs_view(packages@);
                &&& indices_ok(v)
                &&& 0 <= package < v.len()
                &&& exists|i: int| 0 <= i < package && same_triple(#[trigger] v[i], v[package as int])
                &&& forall|i: int, j: int|
                    0 <= i < j < package ==> !same_triple(#[trigger] v[i], #[trigger] v[j])
            },
    {
        let ghost v = pkgs_view(packages@);
        let n = packages.len();
        assert(v.len() == n);
        let mut i: usize = 0;
        while i < n
            invariant
                n == packages.len(),
                v == pkgs_view(packages@),
                forall|p: int| 0 <= p < i ==> pkg_deps_ok(#[trigger] v[p], v.len()),
            decreases n - i,
        {
            assert(v[i as int] == packages@[i as int]@);
            let m = packages[i].dependencies.len();
            let mut k: usize = 0;
            while k < m
                invariant
                    n == packages.len(),
                    v == pkgs_view(packages@),
                    0 <= i < n,
                    v[i as int] == packages@[i as int]@,
                    m == packages@[i as int].dependencies@.len(),
                    forall|p: int| 0 <= p < i ==> pkg_deps_ok(#[trigger] v[p], v.len()),
                    forall|q: int|
                        0 <= q < k ==> (#[trigger] packages@[i as int].dependencies@[q]) < n,
                decreases m - k,
            {
                if packages[i].dependencies[k] >= n {
                    assert(v[i as int].dependencies =~= packages@[i as int].dependencies@);
                    assert(!pkg_deps_ok(v[i as int], v.len()));
                    assert(!indices_ok(v));
                    return Err(ModelError::DanglingDependency { package: i });
                }
                k += 1;
            }
            assert(v[i as int].dependencies =~= packages@[i as int].dependencies@);
            assert(pkg_deps_ok(v[i as int], v.len()));
            i += 1;
        }
        assert(indices_ok(v));
        let mut j: usize = 1;
        while j < n
            invariant
                n == packages.len(),
                v == pkgs_view(packages@),
                j >= 1,
                indices_ok(v),
                forall|a: int, b: int|
                    0 <= a < b < j ==> !same_triple(#[trigger] v[a], #[trigger] v[b]),
            decreases n - j,
        {
            let mut a: usize = 0;
            while a < j
                invariant
                    n == packages.len(),
                    v == pkgs_view(packages@),
                    0 <= a <= j < n,
                    indices_ok(v),
                    forall|p: int| 0 <= p < a ==> !same_triple(#[trigger] v[p], v[j as int]),
                    forall|p: int, q: int|
                        0 <= p < q < j ==> !same_triple(#[trigger] v[p], #[trigger] v[q]),
                decreases j - a,
            {
                assert(v[a as int] == packages@[a as int]@);
                assert(v[j as int] == packages@[j as int]@);
                if same_triple_exec(&packages[a], &packages[j]) {
                    assert(same_triple(v[a as int], v[j as int]));
                    assert(!triples_unique(v));
                    return Err(ModelError::DuplicatePackage { package: j });
                }
                a += 1;
            }
            j += 1;
        }
        assert(triples_unique(v));
        Ok(DependencyGraph { packages })
    }

    /// Number of packages in the graph.
    pub fn len(&self) -> (r: usize)
        ensures
            r == self@.len(),
    {
        self.packages.len()
    }

    /// The package at a given index of the arena.
    pub fn package(&self, i: usize) -> (r: &Package)
        requires
            i < self@.len(),
        ensures
            r@ == self@[i as int],
    {
        &self.packages[i]
    }

    /// The ordered package list: the structured lockfile representation that
    /// the graph was built from, unchanged.
    pub fn packages(&self) -> (r: &Vec<Package>)
        ensures
            pkgs_view(r@) == self@,
    {
        &self.packages
    }
}

} // verus!
