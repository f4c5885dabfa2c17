//! The workspace as Cargo describes it: packages, their targets, and the resolved dependency
//! graph; which packages production builds use, and which library crates can be audited.

use vstd::prelude::*;
use crate::reach::{has_edge, is_root, lists_of, reachable, reaches, walks_to, lemma_walks_correspond, well_formed};
use crate::settings::{applies_to, selector_applies, selector_parses, AnalysisTarget};
use crate::invocation::ProductionSelection;
use crate::text::str_equals;

verus! {

/// The kind of a dependency edge.
#[derive(Clone, Copy, Debug, PartialEq, Eq, Structural)]
pub enum DependencyKind {
    Normal,
    Development,
    Build,
    Unknown,
}

/// One way a package depends on another: the kind, for the platforms a selector chooses.
#[derive(Clone, Debug)]
pub struct DependencyUse {
    pub kind: DependencyKind,
    pub target: Option<String>,
}

/// A resolved dependency of a package, by the dependency's package id.
#[derive(Clone, Debug)]
pub struct ResolvedDependency {
    pub package: String,
    pub uses: Vec<DependencyUse>,
}

/// A package of the resolved dependency graph, by id, with its dependencies.
#[derive(Clone, Debug)]
pub struct ResolvedNode {
    pub id: String,
    pub dependencies: Vec<ResolvedDependency>,
}

/// The kind of a Cargo target.
#[derive(Clone, Copy, Debug, PartialEq, Eq, Structural)]
pub enum TargetKind {
    Lib,
    RLib,
    DyLib,
    CDyLib,
    StaticLib,
    ProcMacro,
    Bin,
    Other,
}

/// A Cargo target of a package.
#[derive(Clone, Debug)]
pub struct PackageTarget {
    pub name: String,
    pub kinds: Vec<TargetKind>,
    pub source_path: String,
}

/// A package of the metadata.
#[derive(Clone, Debug)]
pub struct PackageInfo {
    pub id: String,
    pub name: String,
    pub targets: Vec<PackageTarget>,
}

/// What Cargo reports about a workspace: its packages, which of them are members, and the
/// resolved dependency graph when dependencies were resolved.
#[derive(Clone, Debug)]
pub struct WorkspaceMetadata {
    pub packages: Vec<PackageInfo>,
    pub workspace_members: Vec<String>,
    pub resolve: Option<Vec<ResolvedNode>>,
}

/// Whether `id` is a workspace member.
pub open spec fn is_member(metadata: WorkspaceMetadata, id: Seq<char>) -> bool {
    exists|i: int| 0 <= i < metadata.workspace_members@.len() && #[trigger] metadata.workspace_members@[i]@ == id
}

/// The name of the workspace package with id `id`, among the first `n` packages (the last
/// such package when ids repeat).
pub open spec fn name_among(metadata: WorkspaceMetadata, id: Seq<char>, n: int) -> Option<Seq<char>>
    decreases n,
{
    if n <= 0 {
        None
    } else if metadata.packages@[n - 1].id@ == id && is_member(metadata, id) {
        Some(metadata.packages@[n - 1].name@)
    } else {
        name_among(metadata, id, n - 1)
    }
}

/// The name of the workspace package with id `id`.
pub open spec fn workspace_name_of(metadata: WorkspaceMetadata, id: Seq<char>) -> Option<Seq<char>> {
    name_among(metadata, id, metadata.packages@.len() as int)
}

/// Whether `name` is the name of a workspace package.
pub open spec fn is_workspace_name(metadata: WorkspaceMetadata, name: Seq<char>) -> bool {
    exists|i: int|
        0 <= i < metadata.packages@.len() && is_member(metadata, (#[trigger] metadata.packages@[i]).id@) && metadata.packages@[i].name@ == name
}

/// The dependency graph as plain values: the metadata, its resolved nodes, and which uses of
/// each dependency apply to the analysis target.
pub type DependencyGraph = (WorkspaceMetadata, Seq<ResolvedNode>, Seq<Seq<Seq<bool>>>);

/// Whether dependency `d` of node `k` leads from workspace package `from` to `to`.
pub open spec fn links(graph: DependencyGraph, k: int, d: int, from: Seq<char>, to: Seq<char>) -> bool {
    &&& 0 <= k < graph.1.len()
    &&& 0 <= d < graph.1[k].dependencies@.len()
    &&& workspace_name_of(graph.0, graph.1[k].id@) == Some(from)
    &&& workspace_name_of(graph.0, graph.1[k].dependencies@[d].package@) == Some(to)
}

/// Whether some use of dependency `d` of node `k` applies.
pub open spec fn dependency_applies(graph: DependencyGraph, k: int, d: int) -> bool {
    exists|u: int| 0 <= u < graph.2[k][d].len() && #[trigger] graph.2[k][d][u]
}

/// Whether some applying use of dependency `d` of node `k` is normal.
pub open spec fn dependency_is_normal(graph: DependencyGraph, k: int, d: int) -> bool {
    exists|u: int|
        0 <= u < graph.2[k][d].len() && #[trigger] graph.2[k][d][u] && graph.1[k].dependencies@[d].uses@[u].kind == DependencyKind::Normal
}

/// Whether workspace package `from` depends on `to` for the analysis target.
pub open spec fn depends(graph: DependencyGraph, from: Seq<char>, to: Seq<char>) -> bool {
    exists|k: int, d: int| #[trigger] links(graph, k, d, from, to) && dependency_applies(graph, k, d)
}

/// Whether `from` depends on `to` as a normal dependency for the analysis target.
pub open spec fn depends_normally(graph: DependencyGraph, from: Seq<char>, to: Seq<char>) -> bool {
    exists|k: int, d: int| #[trigger] links(graph, k, d, from, to) && dependency_is_normal(graph, k, d)
}

/// Whether `from` depends on `to` only as a development or build dependency, by some entry.
pub open spec fn depends_otherwise(graph: DependencyGraph, from: Seq<char>, to: Seq<char>) -> bool {
    exists|k: int, d: int| #[trigger] links(graph, k, d, from, to) && dependency_applies(graph, k, d) && !dependency_is_normal(graph, k, d)
}

/// Whether `to` can be reached from `from` along dependencies.
pub open spec fn leads_to(graph: DependencyGraph, from: Seq<char>, to: Seq<char>) -> bool {
    walks_to(|x: Seq<char>, y: Seq<char>| depends(graph, x, y), |x: Seq<char>| x == from, to)
}

/// Whether the strongly connected component of `package` has no dependent outside it.
pub open spec fn in_root_component(graph: DependencyGraph, package: Seq<char>) -> bool {
    forall|other: Seq<char>| #[trigger] leads_to(graph, other, package) ==> leads_to(graph, package, other)
}

/// Whether two packages reach each other.
pub open spec fn same_component(graph: DependencyGraph, a: Seq<char>, b: Seq<char>) -> bool {
    leads_to(graph, a, b) && leads_to(graph, b, a)
}

/// Whether no package of its component depends on `package` only for development or builds.
pub open spec fn entered_normally(graph: DependencyGraph, package: Seq<char>) -> bool {
    !exists|other: Seq<char>| #[trigger] same_component(graph, package, other) && depends_otherwise(graph, other, package)
}

/// Whether a workspace package starts production: its component has no dependents, and it is
/// entered normally from within the component, or no package of the component is.
pub open spec fn starts_production(graph: DependencyGraph, package: Seq<char>) -> bool {
    &&& is_workspace_name(graph.0, package)
    &&& in_root_component(graph, package)
    &&& (entered_normally(graph, package) || !exists|other: Seq<char>| #[trigger] same_component(graph, package, other) && entered_normally(
        graph,
        other,
    ))
}

/// The packages that production builds use: those reachable along normal dependencies from the
/// packages that start production and from the packages of the production products.
pub open spec fn production_package(graph: DependencyGraph, products: Seq<Seq<char>>, package: Seq<char>) -> bool {
    walks_to(
        |x: Seq<char>, y: Seq<char>| depends_normally(graph, x, y),
        |x: Seq<char>| starts_production(graph, x) || products.contains(x),
        package,
    )
}

/// The views of a list of strings.
pub open spec fn names_view(names: Seq<String>) -> Seq<Seq<char>> {
    names.map_values(|name: String| name@)
}

/// Whether no text occurs twice.
pub open spec fn distinct_texts(texts: Seq<Seq<char>>) -> bool {
    forall|i: int, j: int| 0 <= i < j < texts.len() ==> texts[i] != texts[j]
}

pub(crate) fn member_id(metadata: &WorkspaceMetadata, id: &str) -> (member: bool)
    ensures
        member == is_member(*metadata, id@),
{
    let mut k: usize = 0;
    while k < metadata.workspace_members.len()
        invariant
            k <= metadata.workspace_members@.len(),
            forall|i: int| 0 <= i < k ==> metadata.workspace_members@[i]@ != id@,
        decreases metadata.workspace_members@.len() - k,
    {
        if str_equals(metadata.workspace_members[k].as_str(), id) {
            return true;
        }
        k = k + 1;
    }
    false
}

/// The position of `name` in `names`.
fn position_of(names: &Vec<String>, name: &str) -> (position: Option<usize>)
    ensures
        match position {
            Some(i) => i < names@.len() && names@[i as int]@ == name@,
            None => !names_view(names@).contains(name@),
        },
{
    let mut k: usize = 0;
    while k < names.len()
        invariant
            k <= names@.len(),
            forall|i: int| 0 <= i < k ==> names@[i]@ != name@,
        decreases names@.len() - k,
    {
        if str_equals(names[k].as_str(), name) {
            return Some(k);
        }
        k = k + 1;
    }
    proof {
        assert forall|i: int| 0 <= i < names_view(names@).len() implies names_view(names@)[i] != name@ by {
            assert(names_view(names@)[i] == names@[i]@);
        }
    }
    None
}

/// The names of the workspace packages, each once, in package order.
fn workspace_names(metadata: &WorkspaceMetadata) -> (names: Vec<String>)
    ensures
        distinct_texts(names_view(names@)),
        forall|name: Seq<char>| names_view(names@).contains(name) <==> is_workspace_name(*metadata, name),
{
    let mut names: Vec<String> = Vec::new();
    let mut k: usize = 0;
    while k < metadata.packages.len()
        invariant
            k <= metadata.packages@.len(),
            distinct_texts(names_view(names@)),
            forall|name: Seq<char>| names_view(names@).contains(name) <==> exists|i: int|
                0 <= i < k && is_member(*metadata, (#[trigger] metadata.packages@[i]).id@) && metadata.packages@[i].name@ == name,
        decreases metadata.packages@.len() - k,
    {
        let package = &metadata.packages[k];
        let ghost before = names@;
        if member_id(metadata, package.id.as_str()) {
            match position_of(&names, package.name.as_str()) {
                Some(i) => {
                    proof {
                        assert(names_view(names@)[i as int] == package.name@);
                    }
                },
                None => {
                    names.push(package.name.clone());
                    proof {
                        assert(names_view(names@) =~= names_view(before).push(package.name@));
                    }
                },
            }
        }
        proof {
            assert forall|name: Seq<char>| names_view(names@).contains(name) <==> exists|i: int|
                0 <= i < k + 1 && is_member(*metadata, (#[trigger] metadata.packages@[i]).id@) && metadata.packages@[i].name@ == name by {
                if names_view(names@).contains(name) && !names_view(before).contains(name) {
                    assert(name == package.name@);
                    assert(metadata.packages@[k as int] == *package);
                }
                if exists|i: int| 0 <= i < k + 1 && is_member(*metadata, (#[trigger] metadata.packages@[i]).id@) && metadata.packages@[i].name@ == name {
                    let i = choose|i: int| 0 <= i < k + 1 && is_member(*metadata, (#[trigger] metadata.packages@[i]).id@) && metadata.packages@[i].name@ == name;
                    if i == k {
                        if !names_view(before).contains(name) {
                            assert(names_view(names@)[names@.len() - 1] == name);
                        } else {
                            let j = choose|j: int| 0 <= j < names_view(before).len() && names_view(before)[j] == name;
                            assert(names_view(names@)[j] == name);
                        }
                    } else {
                        assert(names_view(before).contains(name));
                        let j = choose|j: int| 0 <= j < names_view(before).len() && names_view(before)[j] == name;
                        assert(names_view(names@)[j] == name);
                    }
                }
            }
        }
        k = k + 1;
    }
    names
}

proof fn lemma_name_among_is_workspace_name(metadata: WorkspaceMetadata, id: Seq<char>, n: int)
    requires
        0 <= n <= metadata.packages@.len(),
    ensures
        name_among(metadata, id, n) matches Some(name) ==> is_workspace_name(metadata, name),
    decreases n,
{
    if n > 0 {
        lemma_name_among_is_workspace_name(metadata, id, n - 1);
    }
}

/// The position in `names` of the workspace package with id `id`.
fn node_of(metadata: &WorkspaceMetadata, names: &Vec<String>, id: &str) -> (node: Option<usize>)
    requires
        forall|name: Seq<char>| names_view(names@).contains(name) <==> is_workspace_name(*metadata, name),
    ensures
        match node {
            Some(i) => i < names@.len() && workspace_name_of(*metadata, id@) == Some(names@[i as int]@),
            None => workspace_name_of(*metadata, id@) is None,
        },
{
    let mut k = metadata.packages.len();
    while k > 0
        invariant
            k <= metadata.packages@.len(),
            forall|name: Seq<char>| names_view(names@).contains(name) <==> is_workspace_name(*metadata, name),
            name_among(*metadata, id@, metadata.packages@.len() as int) == name_among(*metadata, id@, k as int),
        decreases k,
    {
        let package = &metadata.packages[k - 1];
        if str_equals(package.id.as_str(), id) && member_id(metadata, id) {
            proof {
                assert(metadata.packages@[k - 1] == *package);
                assert(is_workspace_name(*metadata, package.name@));
                assert(names_view(names@).contains(package.name@));
            }
            return position_of(names, package.name.as_str());
        }
        k = k - 1;
    }
    None
}

/// Which uses of each dependency apply, as plain values.
pub open spec fn flags_view(applicable: Seq<Vec<Vec<bool>>>) -> Seq<Seq<Seq<bool>>> {
    applicable.map_values(|row: Vec<Vec<bool>>| row@.map_values(|uses: Vec<bool>| uses@))
}

/// Whether the applicability flags have the shape of the resolved nodes.
pub open spec fn flags_fit(nodes: Seq<ResolvedNode>, applicable: Seq<Seq<Seq<bool>>>) -> bool {
    &&& applicable.len() == nodes.len()
    &&& forall|k: int| 0 <= k < nodes.len() ==> (#[trigger] applicable[k]).len() == nodes[k].dependencies@.len()
    &&& forall|k: int, d: int|
        0 <= k < nodes.len() && 0 <= d < nodes[k].dependencies@.len() ==> (#[trigger] applicable[k][d]).len() == nodes[k].dependencies@[d].uses@.len()
}

/// A square matrix of `n` rows as plain values.
pub open spec fn matrix_view(matrix: Seq<Vec<bool>>) -> Seq<Seq<bool>> {
    matrix.map_values(|row: Vec<bool>| row@)
}

/// Whether a matrix is square with `n` rows.
pub open spec fn square(matrix: Seq<Seq<bool>>, n: int) -> bool {
    matrix.len() == n && forall|i: int| 0 <= i < n ==> (#[trigger] matrix[i]).len() == n
}

fn empty_matrix(n: usize) -> (matrix: Vec<Vec<bool>>)
    ensures
        square(matrix_view(matrix@), n as int),
        forall|i: int, j: int| 0 <= i < n && 0 <= j < n ==> !matrix_view(matrix@)[i][j],
{
    let mut matrix: Vec<Vec<bool>> = Vec::new();
    let mut i: usize = 0;
    while i < n
        invariant
            i <= n,
            matrix@.len() == i,
            forall|r: int| 0 <= r < i ==> (#[trigger] matrix@[r])@.len() == n && forall|j: int| 0 <= j < n ==> !matrix@[r]@[j],
        decreases n - i,
    {
        let mut row: Vec<bool> = Vec::new();
        let mut j: usize = 0;
        while j < n
            invariant
                j <= n,
                row@.len() == j,
                forall|c: int| 0 <= c < j ==> !row@[c],
            decreases n - j,
        {
            row.push(false);
            j = j + 1;
        }
        matrix.push(row);
        i = i + 1;
    }
    matrix
}

fn set_cell(matrix: &mut Vec<Vec<bool>>, n: usize, m: usize, Ghost(size): Ghost<int>)
    requires
        square(matrix_view(old(matrix)@), size),
        n < size,
        m < size,
    ensures
        square(matrix_view(final(matrix)@), size),
        forall|i: int, j: int| 0 <= i < size && 0 <= j < size ==> matrix_view(final(matrix)@)[i][j] == ((i == n && j == m) || matrix_view(
            old(matrix)@,
        )[i][j]),
{
    let length = matrix[n].len();
    let mut row: Vec<bool> = Vec::new();
    let mut j: usize = 0;
    while j < length
        invariant
            square(matrix_view(matrix@), size),
            n < size,
            m < size,
            length == matrix@[n as int]@.len(),
            j <= length,
            row@.len() == j,
            forall|c: int| 0 <= c < j ==> row@[c] == (c == m || matrix@[n as int]@[c]),
        decreases length - j,
    {
        let cell = j == m || matrix[n][j];
        row.push(cell);
        j = j + 1;
    }
    let ghost before = matrix@;
    proof {
        assert(matrix_view(before)[n as int] == before[n as int]@);
        assert(length == size);
    }
    matrix.set(n, row);
    proof {
        assert forall|i: int| 0 <= i < size implies (#[trigger] matrix_view(matrix@)[i]).len() == size by {
            assert(matrix_view(matrix@)[i] == matrix@[i]@);
            assert(matrix_view(before)[i] == before[i]@);
        }
        assert forall|i: int, j: int| 0 <= i < size && 0 <= j < size implies matrix_view(matrix@)[i][j] == ((i == n && j == m) || matrix_view(
            old(matrix)@,
        )[i][j]) by {
            assert(matrix_view(matrix@)[i] == matrix@[i]@);
            assert(matrix_view(before)[i] == before[i]@);
        }
    }
}

/// Whether `(k2, d2)` comes before `(k, d)`.
pub open spec fn processed(k2: int, d2: int, k: int, d: int) -> bool {
    k2 < k || (k2 == k && d2 < d)
}

/// Whether some processed dependency links `from` to `to` and applies.
pub open spec fn seen_dependency(graph: DependencyGraph, k: int, d: int, from: Seq<char>, to: Seq<char>) -> bool {
    exists|k2: int, d2: int| processed(k2, d2, k, d) && #[trigger] links(graph, k2, d2, from, to) && dependency_applies(graph, k2, d2)
}

/// Whether some processed dependency links `from` to `to` as a normal dependency.
pub open spec fn seen_normal(graph: DependencyGraph, k: int, d: int, from: Seq<char>, to: Seq<char>) -> bool {
    exists|k2: int, d2: int| processed(k2, d2, k, d) && #[trigger] links(graph, k2, d2, from, to) && dependency_is_normal(graph, k2, d2)
}

/// Whether some processed dependency links `from` to `to` only for development or builds.
pub open spec fn seen_other(graph: DependencyGraph, k: int, d: int, from: Seq<char>, to: Seq<char>) -> bool {
    exists|k2: int, d2: int|
        processed(k2, d2, k, d) && #[trigger] links(graph, k2, d2, from, to) && dependency_applies(graph, k2, d2) && !dependency_is_normal(
            graph,
            k2,
            d2,
        )
}

fn uses_apply(flags: &Vec<bool>, uses: &Vec<DependencyUse>) -> (result: (bool, bool))
    requires
        flags@.len() == uses@.len(),
    ensures
        result.0 == exists|u: int| 0 <= u < flags@.len() && #[trigger] flags@[u],
        result.1 == exists|u: int| 0 <= u < flags@.len() && #[trigger] flags@[u] && uses@[u].kind == DependencyKind::Normal,
{
    let mut any = false;
    let mut normal = false;
    let mut u: usize = 0;
    while u < flags.len()
        invariant
            flags@.len() == uses@.len(),
            u <= flags@.len(),
            any == exists|v: int| 0 <= v < u && #[trigger] flags@[v],
            normal == exists|v: int| 0 <= v < u && #[trigger] flags@[v] && uses@[v].kind == DependencyKind::Normal,
        decreases flags@.len() - u,
    {
        if flags[u] {
            any = true;
            if uses[u].kind == DependencyKind::Normal {
                normal = true;
            }
        }
        u = u + 1;
    }
    (any, normal)
}

/// The invariant of the dependency matrices after the dependencies before `(k, d)`.
pub open spec fn matrices_hold(
    graph: DependencyGraph,
    names: Seq<Seq<char>>,
    all: Seq<Seq<bool>>,
    normal: Seq<Seq<bool>>,
    other: Seq<Seq<bool>>,
    k: int,
    d: int,
) -> bool {
    &&& square(all, names.len() as int)
    &&& square(normal, names.len() as int)
    &&& square(other, names.len() as int)
    &&& forall|n: int, m: int| 0 <= n < names.len() && 0 <= m < names.len() ==> (#[trigger] all[n][m] <==> seen_dependency(graph, k, d, names[n], names[m]))
    &&& forall|n: int, m: int| 0 <= n < names.len() && 0 <= m < names.len() ==> (#[trigger] normal[n][m] <==> seen_normal(graph, k, d, names[n], names[m]))
    &&& forall|n: int, m: int| 0 <= n < names.len() && 0 <= m < names.len() ==> (#[trigger] other[n][m] <==> seen_other(graph, k, d, names[n], names[m]))
}

proof fn lemma_next_node(graph: DependencyGraph, k: int, from: Seq<char>, to: Seq<char>)
    requires
        0 <= k < graph.1.len(),
    ensures
        seen_dependency(graph, k, graph.1[k].dependencies@.len() as int, from, to) == seen_dependency(graph, k + 1, 0, from, to),
        seen_normal(graph, k, graph.1[k].dependencies@.len() as int, from, to) == seen_normal(graph, k + 1, 0, from, to),
        seen_other(graph, k, graph.1[k].dependencies@.len() as int, from, to) == seen_other(graph, k + 1, 0, from, to),
{
    let count = graph.1[k].dependencies@.len() as int;
    if seen_dependency(graph, k + 1, 0, from, to) {
        let (k2, d2) = choose|k2: int, d2: int| processed(k2, d2, k + 1, 0) && #[trigger] links(graph, k2, d2, from, to) && dependency_applies(graph, k2, d2);
        assert(processed(k2, d2, k, count));
    }
    if seen_normal(graph, k + 1, 0, from, to) {
        let (k2, d2) = choose|k2: int, d2: int| processed(k2, d2, k + 1, 0) && #[trigger] links(graph, k2, d2, from, to) && dependency_is_normal(graph, k2, d2);
        assert(processed(k2, d2, k, count));
    }
    if seen_other(graph, k + 1, 0, from, to) {
        let (k2, d2) = choose|k2: int, d2: int|
            processed(k2, d2, k + 1, 0) && #[trigger] links(graph, k2, d2, from, to) && dependency_applies(graph, k2, d2) && !dependency_is_normal(graph, k2, d2);
        assert(processed(k2, d2, k, count));
    }
}

/// Builds the dependency matrices over the workspace names.
fn dependency_matrices(
    metadata: &WorkspaceMetadata,
    nodes: &Vec<ResolvedNode>,
    applicable: &Vec<Vec<Vec<bool>>>,
    names: &Vec<String>,
) -> (matrices: (Vec<Vec<bool>>, Vec<Vec<bool>>, Vec<Vec<bool>>))
    requires
        flags_fit(nodes@, flags_view(applicable@)),
        distinct_texts(names_view(names@)),
        forall|name: Seq<char>| names_view(names@).contains(name) <==> is_workspace_name(*metadata, name),
    ensures
        matrices_hold(
            (*metadata, nodes@, flags_view(applicable@)),
            names_view(names@),
            matrix_view(matrices.0@),
            matrix_view(matrices.1@),
            matrix_view(matrices.2@),
            nodes@.len() as int,
            0,
        ),
{
    let ghost graph = (*metadata, nodes@, flags_view(applicable@));
    let ghost view = names_view(names@);
    let size = names.len();
    let mut all = empty_matrix(size);
    let mut normal = empty_matrix(size);
    let mut other = empty_matrix(size);
    let mut k: usize = 0;
    while k < nodes.len()
        invariant
            graph == (*metadata, nodes@, flags_view(applicable@)),
            view == names_view(names@),
            size == view.len(),
            flags_fit(nodes@, flags_view(applicable@)),
            distinct_texts(view),
            forall|name: Seq<char>| view.contains(name) <==> is_workspace_name(*metadata, name),
            k <= nodes@.len(),
            matrices_hold(graph, view, matrix_view(all@), matrix_view(normal@), matrix_view(other@), k as int, 0),
        decreases nodes@.len() - k,
    {
        let node = &nodes[k];
        let from = node_of(metadata, names, node.id.as_str());
        let mut d: usize = 0;
        while d < node.dependencies.len()
            invariant
                graph == (*metadata, nodes@, flags_view(applicable@)),
                view == names_view(names@),
                size == view.len(),
                flags_fit(nodes@, flags_view(applicable@)),
                distinct_texts(view),
                forall|name: Seq<char>| view.contains(name) <==> is_workspace_name(*metadata, name),
                k < nodes@.len(),
                *node == nodes@[k as int],
                match from {
                    Some(i) => i < view.len() && workspace_name_of(*metadata, node.id@) == Some(view[i as int]),
                    None => workspace_name_of(*metadata, node.id@) is None,
                },
                d <= node.dependencies@.len(),
                matrices_hold(graph, view, matrix_view(all@), matrix_view(normal@), matrix_view(other@), k as int, d as int),
            decreases node.dependencies@.len() - d,
        {
            let dependency = &node.dependencies[d];
            let to = node_of(metadata, names, dependency.package.as_str());
            proof {
                assert(flags_view(applicable@)[k as int] == applicable@[k as int]@.map_values(|uses: Vec<bool>| uses@));
                assert(flags_view(applicable@)[k as int][d as int] == applicable@[k as int]@[d as int]@);
            }
            let (applies, is_normal) = uses_apply(&applicable[k][d], &dependency.uses);
            let ghost all_before = matrix_view(all@);
            let ghost normal_before = matrix_view(normal@);
            let ghost other_before = matrix_view(other@);
            match (from, to) {
                (Some(f), Some(t)) => {
                    if applies {
                        set_cell(&mut all, f, t, Ghost(size as int));
                        if is_normal {
                            set_cell(&mut normal, f, t, Ghost(size as int));
                        } else {
                            set_cell(&mut other, f, t, Ghost(size as int));
                        }
                    }
                },
                _ => {},
            }
            proof {
                assert(graph.1[k as int] == *node);
                assert(graph.1[k as int].dependencies@[d as int] == *dependency);
                assert(graph.2[k as int][d as int] == applicable@[k as int]@[d as int]@);
                if applies {
                    let u = choose|u: int| 0 <= u < applicable@[k as int]@[d as int]@.len() && #[trigger] applicable@[k as int]@[d as int]@[u];
                    assert(graph.2[k as int][d as int][u]);
                }
                if dependency_applies(graph, k as int, d as int) {
                    let u = choose|u: int| 0 <= u < graph.2[k as int][d as int].len() && #[trigger] graph.2[k as int][d as int][u];
                    assert(applicable@[k as int]@[d as int]@[u]);
                }
                if is_normal {
                    let u = choose|u: int| 0 <= u < applicable@[k as int]@[d as int]@.len() && #[trigger] applicable@[k as int]@[d as int]@[u]
                        && dependency.uses@[u].kind == DependencyKind::Normal;
                    assert(graph.2[k as int][d as int][u]);
                }
                if dependency_is_normal(graph, k as int, d as int) {
                    let u = choose|u: int| 0 <= u < graph.2[k as int][d as int].len() && #[trigger] graph.2[k as int][d as int][u]
                        && graph.1[k as int].dependencies@[d as int].uses@[u].kind == DependencyKind::Normal;
                    assert(applicable@[k as int]@[d as int]@[u]);
                }
                assert(applies == dependency_applies(graph, k as int, d as int));
                assert(is_normal == dependency_is_normal(graph, k as int, d as int));
                assert forall|n: int, m: int| 0 <= n < view.len() && 0 <= m < view.len() implies (links(graph, k as int, d as int, view[n], view[m])
                    <==> (from == Some(n as usize) && to == Some(m as usize))) by {
                    if links(graph, k as int, d as int, view[n], view[m]) {
                        assert(from is Some && to is Some);
                        let i = from->0 as int;
                        let j = to->0 as int;
                        if i < n {
                            assert(view[i] != view[n]);
                        } else if n < i {
                            assert(view[n] != view[i]);
                        }
                        if j < m {
                            assert(view[j] != view[m]);
                        } else if m < j {
                            assert(view[m] != view[j]);
                        }
                    }
                }
                assert forall|n: int, m: int| 0 <= n < view.len() && 0 <= m < view.len() implies (#[trigger] matrix_view(all@)[n][m]
                    <==> seen_dependency(graph, k as int, d + 1, view[n], view[m])) by {
                    if seen_dependency(graph, k as int, d + 1, view[n], view[m]) && !seen_dependency(graph, k as int, d as int, view[n], view[m]) {
                        let (k2, d2) = choose|k2: int, d2: int| processed(k2, d2, k as int, d + 1) && #[trigger] links(graph, k2, d2, view[n], view[m])
                            && dependency_applies(graph, k2, d2);
                        assert(k2 == k && d2 == d);
                    }
                    if matrix_view(all@)[n][m] && !all_before[n][m] {
                        assert(links(graph, k as int, d as int, view[n], view[m]));
                    }
                }
                assert forall|n: int, m: int| 0 <= n < view.len() && 0 <= m < view.len() implies (#[trigger] matrix_view(normal@)[n][m]
                    <==> seen_normal(graph, k as int, d + 1, view[n], view[m])) by {
                    if seen_normal(graph, k as int, d + 1, view[n], view[m]) && !seen_normal(graph, k as int, d as int, view[n], view[m]) {
                        let (k2, d2) = choose|k2: int, d2: int| processed(k2, d2, k as int, d + 1) && #[trigger] links(graph, k2, d2, view[n], view[m])
                            && dependency_is_normal(graph, k2, d2);
                        assert(k2 == k && d2 == d);
                    }
                    if matrix_view(normal@)[n][m] && !normal_before[n][m] {
                        assert(links(graph, k as int, d as int, view[n], view[m]));
                    }
                }
                assert forall|n: int, m: int| 0 <= n < view.len() && 0 <= m < view.len() implies (#[trigger] matrix_view(other@)[n][m]
                    <==> seen_other(graph, k as int, d + 1, view[n], view[m])) by {
                    if seen_other(graph, k as int, d + 1, view[n], view[m]) && !seen_other(graph, k as int, d as int, view[n], view[m]) {
                        let (k2, d2) = choose|k2: int, d2: int| processed(k2, d2, k as int, d + 1) && #[trigger] links(graph, k2, d2, view[n], view[m])
                            && dependency_applies(graph, k2, d2) && !dependency_is_normal(graph, k2, d2);
                        assert(k2 == k && d2 == d);
                    }
                    if matrix_view(other@)[n][m] && !other_before[n][m] {
                        assert(links(graph, k as int, d as int, view[n], view[m]));
                    }
                }
            }
            d = d + 1;
        }
        proof {
            assert forall|n: int, m: int| 0 <= n < view.len() && 0 <= m < view.len() implies #[trigger] matrix_view(all@)[n][m] == matrix_view(all@)[n][m] by {
                lemma_next_node(graph, k as int, view[n], view[m]);
            }
        }
        k = k + 1;
    }
    (all, normal, other)
}

fn lists_from(matrix: &Vec<Vec<bool>>, Ghost(size): Ghost<int>) -> (lists: Vec<Vec<usize>>)
    requires
        square(matrix_view(matrix@), size),
    ensures
        lists@.len() == size,
        well_formed(lists_of(lists@)),
        forall|n: int, m: int| 0 <= n < size && 0 <= m < size ==> (#[trigger] has_edge(lists_of(lists@), n, m) <==> matrix_view(matrix@)[n][m]),
        forall|n: int, m: int| #[trigger] has_edge(lists_of(lists@), n, m) ==> 0 <= n < size && 0 <= m < size,
{
    let mut lists: Vec<Vec<usize>> = Vec::new();
    let mut n: usize = 0;
    while n < matrix.len()
        invariant
            square(matrix_view(matrix@), size),
            n <= size,
            lists@.len() == n,
            forall|r: int, i: int| 0 <= r < n && 0 <= i < lists@[r]@.len() ==> (#[trigger] lists@[r]@[i]) < size,
            forall|r: int, m: int| 0 <= r < n && 0 <= m < size ==> (matrix_view(matrix@)[r][m] <==> exists|i: int|
                0 <= i < lists@[r]@.len() && #[trigger] lists@[r]@[i] as int == m),
        decreases size - n,
    {
        proof {
            assert(matrix_view(matrix@)[n as int] == matrix@[n as int]@);
        }
        let mut row: Vec<usize> = Vec::new();
        let mut m: usize = 0;
        while m < matrix[n].len()
            invariant
                square(matrix_view(matrix@), size),
                n < size,
                matrix_view(matrix@)[n as int] == matrix@[n as int]@,
                m <= size,
                forall|i: int| 0 <= i < row@.len() ==> #[trigger] row@[i] < m,
                forall|c: int| 0 <= c < m ==> (matrix_view(matrix@)[n as int][c] <==> exists|i: int| 0 <= i < row@.len() && #[trigger] row@[i] as int == c),
            decreases size - m,
        {
            let ghost before = row@;
            if matrix[n][m] {
                row.push(m);
                proof {
                    assert forall|c: int| 0 <= c < m + 1 implies (matrix_view(matrix@)[n as int][c] <==> exists|i: int|
                        0 <= i < row@.len() && #[trigger] row@[i] as int == c) by {
                        if c < m {
                            if exists|i: int| 0 <= i < row@.len() && #[trigger] row@[i] as int == c {
                                let i = choose|i: int| 0 <= i < row@.len() && #[trigger] row@[i] as int == c;
                                assert(i < before.len());
                                assert(before[i] == row@[i]);
                            }
                            if exists|i: int| 0 <= i < before.len() && #[trigger] before[i] as int == c {
                                let i = choose|i: int| 0 <= i < before.len() && #[trigger] before[i] as int == c;
                                assert(row@[i] == before[i]);
                            }
                        } else {
                            assert(row@[before.len() as int] as int == c);
                        }
                    }
                }
            }
            m = m + 1;
        }
        let ghost before = lists@;
        lists.push(row);
        proof {
            assert forall|r: int, c: int| 0 <= r < n + 1 && 0 <= c < size implies (matrix_view(matrix@)[r][c] <==> exists|i: int|
                0 <= i < lists@[r]@.len() && #[trigger] lists@[r]@[i] as int == c) by {
                if r < n {
                    assert(lists@[r] == before[r]);
                } else {
                    assert(lists@[r] == row);
                }
            }
            assert forall|r: int, i: int| 0 <= r < n + 1 && 0 <= i < lists@[r]@.len() implies (#[trigger] lists@[r]@[i]) < size by {
                if r < n {
                    assert(lists@[r] == before[r]);
                } else {
                    assert(lists@[r] == row);
                }
            }
        }
        n = n + 1;
    }
    proof {
        assert forall|r: int, i: int| 0 <= r < lists_of(lists@).len() && 0 <= i < lists_of(lists@)[r].len() implies #[trigger] lists_of(lists@)[r][i] < lists_of(lists@).len() by {
            assert(lists_of(lists@)[r] == lists@[r]@);
        }
        assert forall|n: int, m: int| 0 <= n < size && 0 <= m < size implies (#[trigger] has_edge(lists_of(lists@), n, m) <==> matrix_view(matrix@)[n][m]) by {
            assert(lists_of(lists@)[n] == lists@[n]@);
            if has_edge(lists_of(lists@), n, m) {
                let i = choose|i: int| 0 <= i < lists_of(lists@)[n].len() && #[trigger] lists_of(lists@)[n][i] as int == m;
                assert(lists@[n]@[i] as int == m);
            }
            if matrix_view(matrix@)[n][m] {
                let i = choose|i: int| 0 <= i < lists@[n]@.len() && #[trigger] lists@[n]@[i] as int == m;
                assert(lists_of(lists@)[n][i] as int == m);
            }
        }
        assert forall|n: int, m: int| #[trigger] has_edge(lists_of(lists@), n, m) implies 0 <= n < size && 0 <= m < size by {
            let i = choose|i: int| 0 <= i < lists_of(lists@)[n].len() && #[trigger] lists_of(lists@)[n][i] as int == m;
            assert(lists_of(lists@)[n] == lists@[n]@);
        }
    }
    lists
}

proof fn lemma_seen_all(graph: DependencyGraph, x: Seq<char>, y: Seq<char>)
    ensures
        seen_dependency(graph, graph.1.len() as int, 0, x, y) == depends(graph, x, y),
        seen_normal(graph, graph.1.len() as int, 0, x, y) == depends_normally(graph, x, y),
        seen_other(graph, graph.1.len() as int, 0, x, y) == depends_otherwise(graph, x, y),
{
    if depends(graph, x, y) {
        let (k, d) = choose|k: int, d: int| #[trigger] links(graph, k, d, x, y) && dependency_applies(graph, k, d);
        assert(processed(k, d, graph.1.len() as int, 0));
    }
    if depends_normally(graph, x, y) {
        let (k, d) = choose|k: int, d: int| #[trigger] links(graph, k, d, x, y) && dependency_is_normal(graph, k, d);
        assert(processed(k, d, graph.1.len() as int, 0));
    }
    if depends_otherwise(graph, x, y) {
        let (k, d) = choose|k: int, d: int| #[trigger] links(graph, k, d, x, y) && dependency_applies(graph, k, d) && !dependency_is_normal(graph, k, d);
        assert(processed(k, d, graph.1.len() as int, 0));
    }
}

proof fn lemma_linked_names(graph: DependencyGraph, k: int, d: int, x: Seq<char>, y: Seq<char>)
    requires
        links(graph, k, d, x, y),
    ensures
        is_workspace_name(graph.0, x),
        is_workspace_name(graph.0, y),
{
    lemma_name_among_is_workspace_name(graph.0, graph.1[k].id@, graph.0.packages@.len() as int);
    lemma_name_among_is_workspace_name(graph.0, graph.1[k].dependencies@[d].package@, graph.0.packages@.len() as int);
}

/// A package that is not in the workspace leads only to itself.
proof fn lemma_outside_leads_nowhere(graph: DependencyGraph, from: Seq<char>, to: Seq<char>)
    requires
        !is_workspace_name(graph.0, from),
        leads_to(graph, from, to),
    ensures
        to == from,
{
    let relation = |x: Seq<char>, y: Seq<char>| depends(graph, x, y);
    let root = |x: Seq<char>| x == from;
    assert(walks_to(relation, root, to));
    let walk = choose|walk: Seq<Seq<char>>| #![trigger crate::reach::is_walk(relation, walk)] crate::reach::is_walk(relation, walk) && root(walk[0]) && walk.last() == to;
    if walk.len() > 1 {
        assert(relation(walk[0int], walk[0int + 1]));
        let (k, d) = choose|k: int, d: int| #[trigger] links(graph, k, d, walk[0], walk[1]) && dependency_applies(graph, k, d);
        lemma_linked_names(graph, k, d, walk[0], walk[1]);
    }
}

/// Whether the graph's dependency relation only relates workspace packages, and `lists` is
/// that relation over `names`.
pub open spec fn lists_follow(
    graph: DependencyGraph,
    names: Seq<Seq<char>>,
    lists: Seq<Seq<usize>>,
    relation: spec_fn(Seq<char>, Seq<char>) -> bool,
) -> bool {
    &&& lists.len() == names.len()
    &&& well_formed(lists)
    &&& forall|n: int, m: int| 0 <= n < names.len() && 0 <= m < names.len() ==> (#[trigger] has_edge(lists, n, m) <==> relation(names[n], names[m]))
    &&& forall|n: int, m: int| #[trigger] has_edge(lists, n, m) ==> 0 <= n < names.len() && 0 <= m < names.len()
    &&& forall|x: Seq<char>, y: Seq<char>| #[trigger] relation(x, y) ==> names.contains(x) && names.contains(y)
}

proof fn lemma_reach_row(graph: DependencyGraph, names: Seq<Seq<char>>, lists: Seq<Seq<usize>>, a: int, b: int)
    requires
        lists_follow(graph, names, lists, |x: Seq<char>, y: Seq<char>| depends(graph, x, y)),
        distinct_texts(names),
        0 <= a < names.len(),
        0 <= b < names.len(),
        names.len() <= usize::MAX,
    ensures
        reaches(lists, seq![a as usize], b) <==> leads_to(graph, names[a], names[b]),
{
    let relation = |x: Seq<char>, y: Seq<char>| depends(graph, x, y);
    let root = |x: Seq<char>| x == names[a];
    let roots = seq![a as usize];
    assert forall|x: Seq<char>, y: Seq<char>| #[trigger] relation(x, y) implies (exists|n: int| 0 <= n < names.len() && names[n] == x) && (exists|m: int|
        0 <= m < names.len() && names[m] == y) by {
        assert(names.contains(x) && names.contains(y));
    }
    assert forall|n: int| 0 <= n < names.len() implies (#[trigger] is_root(roots, n) <==> root(names[n])) by {
        if root(names[n]) && n != a {
            if n < a {
                assert(names[n] != names[a]);
            } else {
                assert(names[a] != names[n]);
            }
        }
        if n == a {
            assert(roots[0] as int == n);
        }
    }
    assert forall|n: int| #[trigger] is_root(roots, n) implies 0 <= n < names.len() by {
        let k = choose|k: int| 0 <= k < roots.len() && #[trigger] roots[k] as int == n;
    }
    assert forall|x: Seq<char>| #[trigger] root(x) implies exists|n: int| 0 <= n < names.len() && names[n] == x by {
        assert(names[a] == x);
    }
    assert forall|i: int, j: int| 0 <= i < names.len() && 0 <= j < names.len() && i != j implies names[i] != names[j] by {
        if i < j {
            assert(names[i] != names[j]);
        } else {
            assert(names[j] != names[i]);
        }
    }
    lemma_walks_correspond(names, lists, roots, relation, root, b);
}

/// Whether every workspace package whose row says it leads to `a` is led to by `a`.
fn component_has_no_dependents(reach: &Vec<Vec<bool>>, a: usize, Ghost(size): Ghost<int>) -> (root: bool)
    requires
        square(matrix_view(reach@), size),
        a < size,
    ensures
        root == forall|b: int| 0 <= b < size ==> (matrix_view(reach@)[b][a as int] ==> matrix_view(reach@)[a as int][b]),
{
    let mut b: usize = 0;
    while b < reach.len()
        invariant
            square(matrix_view(reach@), size),
            a < size,
            b <= size,
            forall|c: int| 0 <= c < b ==> (matrix_view(reach@)[c][a as int] ==> matrix_view(reach@)[a as int][c]),
        decreases size - b,
    {
        proof {
            assert(matrix_view(reach@)[b as int] == reach@[b as int]@);
            assert(matrix_view(reach@)[a as int] == reach@[a as int]@);
        }
        if reach[b][a] && !reach[a][b] {
            return false;
        }
        b = b + 1;
    }
    true
}

/// Whether no package of the component of `a` depends on `a` only for development or builds.
fn enters_normally(reach: &Vec<Vec<bool>>, other: &Vec<Vec<bool>>, a: usize, Ghost(size): Ghost<int>) -> (entered: bool)
    requires
        square(matrix_view(reach@), size),
        square(matrix_view(other@), size),
        a < size,
    ensures
        entered == forall|b: int| 0 <= b < size ==> !(matrix_view(reach@)[a as int][b] && matrix_view(reach@)[b][a as int] && matrix_view(other@)[b][a as int]),
{
    let mut b: usize = 0;
    while b < reach.len()
        invariant
            square(matrix_view(reach@), size),
            square(matrix_view(other@), size),
            a < size,
            b <= size,
            forall|c: int| 0 <= c < b ==> !(matrix_view(reach@)[a as int][c] && matrix_view(reach@)[c][a as int] && matrix_view(other@)[c][a as int]),
        decreases size - b,
    {
        proof {
            assert(matrix_view(reach@)[b as int] == reach@[b as int]@);
            assert(matrix_view(reach@)[a as int] == reach@[a as int]@);
            assert(matrix_view(other@)[b as int] == other@[b as int]@);
        }
        if reach[a][b] && reach[b][a] && other[b][a] {
            return false;
        }
        b = b + 1;
    }
    true
}

/// Whether the graph is described over `names` by a reach matrix and a matrix of
/// development-or-build-only dependencies.
pub open spec fn described_by(graph: DependencyGraph, names: Seq<Seq<char>>, reach: Seq<Seq<bool>>, other: Seq<Seq<bool>>) -> bool {
    &&& distinct_texts(names)
    &&& forall|name: Seq<char>| names.contains(name) <==> is_workspace_name(graph.0, name)
    &&& square(reach, names.len() as int)
    &&& square(other, names.len() as int)
    &&& forall|a: int, b: int| 0 <= a < names.len() && 0 <= b < names.len() ==> (#[trigger] reach[a][b] <==> leads_to(graph, names[a], names[b]))
    &&& forall|a: int, b: int| 0 <= a < names.len() && 0 <= b < names.len() ==> (#[trigger] other[a][b] <==> depends_otherwise(graph, names[a], names[b]))
}

proof fn lemma_position(names: Seq<Seq<char>>, x: Seq<char>) -> (n: int)
    requires
        names.contains(x),
    ensures
        0 <= n < names.len(),
        names[n] == x,
{
    choose|n: int| 0 <= n < names.len() && names[n] == x
}

proof fn lemma_component_member(graph: DependencyGraph, names: Seq<Seq<char>>, a: int, other: Seq<char>)
    requires
        forall|name: Seq<char>| names.contains(name) <==> is_workspace_name(graph.0, name),
        0 <= a < names.len(),
        same_component(graph, names[a], other),
    ensures
        names.contains(other),
{
    if !is_workspace_name(graph.0, other) {
        lemma_outside_leads_nowhere(graph, other, names[a]);
        assert(names.contains(names[a]));
    }
}

proof fn lemma_root_component(graph: DependencyGraph, names: Seq<Seq<char>>, reach: Seq<Seq<bool>>, other: Seq<Seq<bool>>, a: int)
    requires
        described_by(graph, names, reach, other),
        0 <= a < names.len(),
    ensures
        in_root_component(graph, names[a]) <==> forall|b: int| 0 <= b < names.len() ==> (reach[b][a] ==> reach[a][b]),
        entered_normally(graph, names[a]) <==> forall|b: int| 0 <= b < names.len() ==> !(reach[a][b] && reach[b][a] && other[b][a]),
{
    if forall|b: int| 0 <= b < names.len() ==> (reach[b][a] ==> reach[a][b]) {
        assert forall|x: Seq<char>| #[trigger] leads_to(graph, x, names[a]) implies leads_to(graph, names[a], x) by {
            if is_workspace_name(graph.0, x) {
                assert(names.contains(x));
                let b = lemma_position(names, x);
                assert(leads_to(graph, names[b], names[a]));
                assert(reach[b][a]);
                assert(reach[a][b]);
                assert(leads_to(graph, names[a], names[b]));
            } else {
                lemma_outside_leads_nowhere(graph, x, names[a]);
                assert(names.contains(names[a]));
            }
        }
    }
    if in_root_component(graph, names[a]) {
        assert forall|b: int| 0 <= b < names.len() implies (reach[b][a] ==> reach[a][b]) by {
            if reach[b][a] {
                assert(leads_to(graph, names[b], names[a]));
            }
        }
    }
    if forall|b: int| 0 <= b < names.len() ==> !(reach[a][b] && reach[b][a] && other[b][a]) {
        assert forall|x: Seq<char>| #[trigger] same_component(graph, names[a], x) implies !depends_otherwise(graph, x, names[a]) by {
            lemma_component_member(graph, names, a, x);
            let b = lemma_position(names, x);
            assert(!(reach[a][b] && reach[b][a] && other[b][a]));
        }
    }
    if entered_normally(graph, names[a]) {
        assert forall|b: int| 0 <= b < names.len() implies !(reach[a][b] && reach[b][a] && other[b][a]) by {
            if reach[a][b] && reach[b][a] && other[b][a] {
                assert(same_component(graph, names[a], names[b]));
            }
        }
    }
}

/// Which workspace packages start production, given the reach and dependency matrices.
fn production_starts(reach: &Vec<Vec<bool>>, other: &Vec<Vec<bool>>, Ghost(graph): Ghost<DependencyGraph>, Ghost(names): Ghost<Seq<Seq<char>>>) -> (starts: Vec<bool>)
    requires
        described_by(graph, names, matrix_view(reach@), matrix_view(other@)),
    ensures
        starts@.len() == names.len(),
        forall|a: int| 0 <= a < names.len() ==> (#[trigger] starts@[a] <==> starts_production(graph, names[a])),
{
    let size = reach.len();
    let mut entered: Vec<bool> = Vec::new();
    let mut a: usize = 0;
    while a < size
        invariant
            described_by(graph, names, matrix_view(reach@), matrix_view(other@)),
            size == names.len(),
            a <= size,
            entered@.len() == a,
            forall|c: int| 0 <= c < a ==> (#[trigger] entered@[c] <==> entered_normally(graph, names[c])),
        decreases size - a,
    {
        let flag = enters_normally(reach, other, a, Ghost(size as int));
        proof {
            lemma_root_component(graph, names, matrix_view(reach@), matrix_view(other@), a as int);
        }
        entered.push(flag);
        a = a + 1;
    }
    let mut starts: Vec<bool> = Vec::new();
    let mut a: usize = 0;
    while a < size
        invariant
            described_by(graph, names, matrix_view(reach@), matrix_view(other@)),
            size == names.len(),
            entered@.len() == size,
            forall|c: int| 0 <= c < size ==> (#[trigger] entered@[c] <==> entered_normally(graph, names[c])),
            a <= size,
            starts@.len() == a,
            forall|c: int| 0 <= c < a ==> (#[trigger] starts@[c] <==> starts_production(graph, names[c])),
        decreases size - a,
    {
        let root = component_has_no_dependents(reach, a, Ghost(size as int));
        let mut member_entered = false;
        let mut b: usize = 0;
        while b < size
            invariant
                described_by(graph, names, matrix_view(reach@), matrix_view(other@)),
                size == names.len(),
                entered@.len() == size,
                a < size,
                b <= size,
                member_entered == exists|c: int| 0 <= c < b && matrix_view(reach@)[a as int][c] && matrix_view(reach@)[c][a as int] && #[trigger] entered@[c],
            decreases size - b,
        {
            proof {
                assert(matrix_view(reach@)[b as int] == reach@[b as int]@);
                assert(matrix_view(reach@)[a as int] == reach@[a as int]@);
            }
            if reach[a][b] && reach[b][a] && entered[b] {
                member_entered = true;
            }
            b = b + 1;
        }
        let start = root && (entered[a] || !member_entered);
        proof {
            lemma_root_component(graph, names, matrix_view(reach@), matrix_view(other@), a as int);
            assert(names.contains(names[a as int]));
            if member_entered {
                let c = choose|c: int| 0 <= c < size && matrix_view(reach@)[a as int][c] && matrix_view(reach@)[c][a as int] && #[trigger] entered@[c];
                assert(same_component(graph, names[a as int], names[c]) && entered_normally(graph, names[c]));
            } else {
                assert forall|x: Seq<char>| #[trigger] same_component(graph, names[a as int], x) implies !entered_normally(graph, x) by {
                    lemma_component_member(graph, names, a as int, x);
                    let c = lemma_position(names, x);
                    assert(matrix_view(reach@)[a as int][c] && matrix_view(reach@)[c][a as int]);
                    assert(!entered@[c]);
                }
            }
        }
        starts.push(start);
        a = a + 1;
    }
    starts
}

/// Whether root `i` is an element named `name`.
pub open spec fn root_named(elements: Seq<Seq<char>>, roots: Seq<usize>, i: int, name: Seq<char>) -> bool {
    0 <= i < roots.len() && roots[i] < elements.len() && elements[roots[i] as int] == name
}

/// The packages of the production products.
pub open spec fn product_packages(products: Seq<ProductionSelection>) -> Seq<Seq<char>> {
    products.map_values(|product: ProductionSelection| product.package@)
}

proof fn lemma_normal_names(graph: DependencyGraph, x: Seq<char>, y: Seq<char>)
    requires
        depends_normally(graph, x, y),
    ensures
        is_workspace_name(graph.0, x),
        is_workspace_name(graph.0, y),
{
    let (k, d) = choose|k: int, d: int| #[trigger] links(graph, k, d, x, y) && dependency_is_normal(graph, k, d);
    lemma_linked_names(graph, k, d, x, y);
}

proof fn lemma_depends_names(graph: DependencyGraph, x: Seq<char>, y: Seq<char>)
    requires
        depends(graph, x, y),
    ensures
        is_workspace_name(graph.0, x),
        is_workspace_name(graph.0, y),
{
    let (k, d) = choose|k: int, d: int| #[trigger] links(graph, k, d, x, y) && dependency_applies(graph, k, d);
    lemma_linked_names(graph, k, d, x, y);
}

/// The rows of the reach matrix: which workspace packages each one leads to.
fn reach_matrix(lists: &Vec<Vec<usize>>, Ghost(graph): Ghost<DependencyGraph>, Ghost(names): Ghost<Seq<Seq<char>>>) -> (reach: Vec<Vec<bool>>)
    requires
        lists_follow(graph, names, lists_of(lists@), |x: Seq<char>, y: Seq<char>| depends(graph, x, y)),
        distinct_texts(names),
    ensures
        square(matrix_view(reach@), names.len() as int),
        forall|a: int, b: int| 0 <= a < names.len() && 0 <= b < names.len() ==> (#[trigger] matrix_view(reach@)[a][b] <==> leads_to(graph, names[a], names[b])),
{
    let size = lists.len();
    let mut reach: Vec<Vec<bool>> = Vec::new();
    let mut a: usize = 0;
    while a < size
        invariant
            lists_follow(graph, names, lists_of(lists@), |x: Seq<char>, y: Seq<char>| depends(graph, x, y)),
            distinct_texts(names),
            size == names.len(),
            a <= size,
            reach@.len() == a,
            forall|r: int| 0 <= r < a ==> (#[trigger] reach@[r])@.len() == size,
            forall|r: int, b: int| 0 <= r < a && 0 <= b < size ==> (#[trigger] reach@[r]@[b] <==> leads_to(graph, names[r], names[b])),
        decreases size - a,
    {
        let mut roots: Vec<usize> = Vec::new();
        roots.push(a);
        let row = reachable(lists, roots);
        proof {
            assert(roots@ == seq![a]);
            assert forall|b: int| 0 <= b < size implies (row@[b] <==> leads_to(graph, names[a as int], names[b])) by {
                lemma_reach_row(graph, names, lists_of(lists@), a as int, b);
            }
        }
        reach.push(row);
        a = a + 1;
    }
    proof {
        assert forall|r: int| 0 <= r < size implies (#[trigger] matrix_view(reach@)[r]).len() == size by {
            assert(matrix_view(reach@)[r] == reach@[r]@);
        }
        assert forall|r: int, b: int| 0 <= r < size && 0 <= b < size implies (#[trigger] matrix_view(reach@)[r][b] <==> leads_to(graph, names[r], names[b])) by {
            assert(matrix_view(reach@)[r] == reach@[r]@);
        }
    }
    reach
}

proof fn lemma_lists_follow(
    graph: DependencyGraph,
    names: Seq<Seq<char>>,
    lists: Seq<Seq<usize>>,
    matrix: Seq<Seq<bool>>,
    normal: bool,
)
    requires
        forall|name: Seq<char>| names.contains(name) <==> is_workspace_name(graph.0, name),
        lists.len() == names.len(),
        well_formed(lists),
        forall|n: int, m: int| 0 <= n < names.len() && 0 <= m < names.len() ==> (#[trigger] has_edge(lists, n, m) <==> matrix[n][m]),
        forall|n: int, m: int| #[trigger] has_edge(lists, n, m) ==> 0 <= n < names.len() && 0 <= m < names.len(),
        !normal ==> forall|n: int, m: int| 0 <= n < names.len() && 0 <= m < names.len() ==> (#[trigger] matrix[n][m] <==> seen_dependency(
            graph,
            graph.1.len() as int,
            0,
            names[n],
            names[m],
        )),
        normal ==> forall|n: int, m: int| 0 <= n < names.len() && 0 <= m < names.len() ==> (#[trigger] matrix[n][m] <==> seen_normal(
            graph,
            graph.1.len() as int,
            0,
            names[n],
            names[m],
        )),
    ensures
        !normal ==> lists_follow(graph, names, lists, |x: Seq<char>, y: Seq<char>| depends(graph, x, y)),
        normal ==> lists_follow(graph, names, lists, |x: Seq<char>, y: Seq<char>| depends_normally(graph, x, y)),
{
    if !normal {
        assert forall|n: int, m: int| 0 <= n < names.len() && 0 <= m < names.len() implies (#[trigger] has_edge(lists, n, m) <==> depends(graph, names[n], names[m])) by {
            lemma_seen_all(graph, names[n], names[m]);
            assert(matrix[n][m] <==> seen_dependency(graph, graph.1.len() as int, 0, names[n], names[m]));
        }
        assert forall|x: Seq<char>, y: Seq<char>| #[trigger] depends(graph, x, y) implies names.contains(x) && names.contains(y) by {
            lemma_depends_names(graph, x, y);
        }
    } else {
        assert forall|n: int, m: int| 0 <= n < names.len() && 0 <= m < names.len() implies (#[trigger] has_edge(lists, n, m) <==> depends_normally(graph, names[n], names[m])) by {
            lemma_seen_all(graph, names[n], names[m]);
            assert(matrix[n][m] <==> seen_normal(graph, graph.1.len() as int, 0, names[n], names[m]));
        }
        assert forall|x: Seq<char>, y: Seq<char>| #[trigger] depends_normally(graph, x, y) implies names.contains(x) && names.contains(y) by {
            lemma_normal_names(graph, x, y);
        }
    }
}

/// The packages that production builds use, given which uses of each dependency apply to the
/// analysis target.
///
/// A package starts production when no package outside its dependency cycle depends on it, and
/// no package of its cycle depends on it only for development or builds (or every package of
/// the cycle is depended on that way). The packages of the production products start it too.
/// Production then follows normal dependencies.
pub fn production_packages_with(
    metadata: &WorkspaceMetadata,
    nodes: &Vec<ResolvedNode>,
    applicable: &Vec<Vec<Vec<bool>>>,
    products: &[ProductionSelection],
) -> (packages: Vec<String>)
    requires
        flags_fit(nodes@, flags_view(applicable@)),
    ensures
        distinct_texts(names_view(packages@)),
        forall|name: Seq<char>| names_view(packages@).contains(name) <==> production_package(
            (*metadata, nodes@, flags_view(applicable@)),
            product_packages(products@),
            name,
        ),
{
    let ghost graph = (*metadata, nodes@, flags_view(applicable@));
    let names = workspace_names(metadata);
    let ghost view = names_view(names@);
    let size = names.len();
    let (all, normal, other) = dependency_matrices(metadata, nodes, applicable, &names);
    let all_lists = lists_from(&all, Ghost(size as int));
    proof {
        lemma_lists_follow(graph, view, lists_of(all_lists@), matrix_view(all@), false);
        assert forall|n: int, m: int| 0 <= n < size && 0 <= m < size implies (#[trigger] matrix_view(other@)[n][m] <==> depends_otherwise(graph, view[n], view[m])) by {
            lemma_seen_all(graph, view[n], view[m]);
        }
    }
    let reach = reach_matrix(&all_lists, Ghost(graph), Ghost(view));
    let starts = production_starts(&reach, &other, Ghost(graph), Ghost(view));
    let ghost product_names = product_packages(products@);
    let mut elements = crate::settings::copy_texts(&names);
    let mut k: usize = 0;
    while k < products.len()
        invariant
            product_names == product_packages(products@),
            view == names_view(names@),
            distinct_texts(names_view(elements@)),
            names_view(elements@).take(size as int) == view,
            size <= elements@.len(),
            k <= products@.len(),
            forall|i: int| 0 <= i < k ==> names_view(elements@).contains(#[trigger] product_names[i]),
            forall|i: int| size <= i < elements@.len() ==> exists|j: int| 0 <= j < k && #[trigger] names_view(elements@)[i] == product_names[j],
        decreases products@.len() - k,
    {
        let package = products[k].package;
        let ghost before = elements@;
        proof {
            assert(product_names[k as int] == package@);
        }
        match position_of(&elements, package) {
            Some(i) => {
                proof {
                    assert(names_view(elements@)[i as int] == package@);
                }
            },
            None => {
                elements.push(String::from_str(package));
                proof {
                    assert(names_view(elements@) =~= names_view(before).push(package@));
                    assert(names_view(elements@).take(size as int) =~= names_view(before).take(size as int));
                    assert(names_view(elements@)[before.len() as int] == package@);
                }
            },
        }
        proof {
            assert forall|i: int| 0 <= i < k + 1 implies names_view(elements@).contains(#[trigger] product_names[i]) by {
                if i < k {
                    let j = choose|j: int| 0 <= j < names_view(before).len() && names_view(before)[j] == product_names[i];
                    assert(names_view(elements@)[j] == product_names[i]);
                }
            }
            assert forall|i: int| size <= i < elements@.len() implies exists|j: int| 0 <= j < k + 1 && #[trigger] names_view(elements@)[i] == product_names[j] by {
                if i < before.len() {
                    assert(names_view(elements@)[i] == names_view(before)[i]);
                } else {
                    assert(names_view(elements@)[i] == product_names[k as int]);
                }
            }
        }
        k = k + 1;
    }
    let ghost element_view = names_view(elements@);
    let normal_lists = lists_from(&normal, Ghost(size as int));
    proof {
        lemma_lists_follow(graph, view, lists_of(normal_lists@), matrix_view(normal@), true);
    }
    let mut lists = normal_lists;
    while lists.len() < elements.len()
        invariant
            size <= lists@.len() <= elements@.len(),
            view == names_view(names@),
            size == view.len(),
            lists_follow(graph, view, lists_of(normal_lists@), |x: Seq<char>, y: Seq<char>| depends_normally(graph, x, y)),
            forall|n: int| 0 <= n < size ==> lists_of(lists@)[n] == lists_of(normal_lists@)[n],
            forall|n: int| size <= n < lists@.len() ==> lists_of(lists@)[n].len() == 0,
        decreases elements@.len() - lists@.len(),
    {
        let ghost before = lists@;
        lists.push(Vec::new());
        proof {
            assert forall|n: int| 0 <= n < size implies lists_of(lists@)[n] == lists_of(normal_lists@)[n] by {
                assert(lists_of(lists@)[n] == lists@[n]@);
                assert(lists@[n] == before[n]);
                assert(lists_of(before)[n] == before[n]@);
            }
            assert forall|n: int| size <= n < lists@.len() implies lists_of(lists@)[n].len() == 0 by {
                assert(lists_of(lists@)[n] == lists@[n]@);
                if n < before.len() {
                    assert(lists@[n] == before[n]);
                    assert(lists_of(before)[n] == before[n]@);
                }
            }
        }
    }
    let mut roots: Vec<usize> = Vec::new();
    let mut a: usize = 0;
    while a < size
        invariant
            starts@.len() == size,
            a <= size,
            forall|i: int| 0 <= i < roots@.len() ==> #[trigger] roots@[i] < size && starts@[roots@[i] as int],
            forall|c: int| 0 <= c < a && starts@[c] ==> is_root(roots@, c),
        decreases size - a,
    {
        if starts[a] {
            let ghost before = roots@;
            roots.push(a);
            proof {
                assert forall|c: int| 0 <= c < a + 1 && starts@[c] implies is_root(roots@, c) by {
                    if c < a {
                        let j = choose|j: int| 0 <= j < before.len() && #[trigger] before[j] as int == c;
                        assert(roots@[j] as int == c);
                    } else {
                        assert(roots@[before.len() as int] as int == c);
                    }
                }
            }
        }
        a = a + 1;
    }
    let ghost start_roots = roots@;
    proof {
        assert(lists@.len() == elements@.len());
        assert forall|n: int, m: int| 0 <= n < size && 0 <= m < size implies (#[trigger] has_edge(lists_of(lists@), n, m) <==> depends_normally(
            graph,
            view[n],
            view[m],
        )) by {
            assert(lists_of(lists@)[n] == lists_of(normal_lists@)[n]);
            assert(has_edge(lists_of(normal_lists@), n, m) <==> depends_normally(graph, view[n], view[m]));
        }
        assert forall|n: int, m: int| 0 <= n < size && #[trigger] has_edge(lists_of(lists@), n, m) implies 0 <= m < size by {
            assert(lists_of(lists@)[n] == lists_of(normal_lists@)[n]);
            assert(has_edge(lists_of(normal_lists@), n, m));
        }
        assert forall|r: int, i: int| 0 <= r < lists_of(lists@).len() && 0 <= i < lists_of(lists@)[r].len() implies #[trigger] lists_of(lists@)[r][i] < lists_of(lists@).len() by {
            if r < size {
                assert(lists_of(lists@)[r] == lists_of(normal_lists@)[r]);
                assert(lists_of(normal_lists@)[r][i] < lists_of(normal_lists@).len());
            }
        }
    }
    let ghost mut witness: Seq<int> = Seq::empty();
    let mut k: usize = 0;
    while k < products.len()
        invariant
            witness.len() == k,
            forall|j: int| 0 <= j < k ==> root_named(element_view, roots@, #[trigger] witness[j], product_names[j]),
            forall|i: int| 0 <= i < start_roots.len() ==> #[trigger] start_roots[i] < size && starts@[start_roots[i] as int],
            lists@.len() == elements@.len(),
            product_names == product_packages(products@),
            element_view == names_view(elements@),
            starts@.len() == size,
            size <= elements@.len(),
            k <= products@.len(),
            start_roots.len() <= roots@.len(),
            forall|i: int| 0 <= i < start_roots.len() ==> roots@[i] == start_roots[i],
            forall|i: int| start_roots.len() <= i < roots@.len() ==> #[trigger] roots@[i] < elements@.len() && exists|j: int|
                0 <= j < k && element_view[roots@[i] as int] == product_names[j],
            forall|i: int| 0 <= i < product_names.len() ==> element_view.contains(#[trigger] product_names[i]),
        decreases products@.len() - k,
    {
        let ghost before = roots@;
        proof {
            assert(product_names[k as int] == products@[k as int].package@);
        }
        match position_of(&elements, products[k].package) {
            Some(i) => {
                roots.push(i);
                proof {
                    assert(element_view[i as int] == elements@[i as int]@);
                    assert(element_view[roots@[before.len() as int] as int] == product_names[k as int]);
                    let old_witness = witness;
                    witness = witness.push(before.len() as int);
                    assert forall|j: int| 0 <= j < k + 1 implies root_named(element_view, roots@, #[trigger] witness[j], product_names[j]) by {
                        if j < k {
                            assert(witness[j] == old_witness[j]);
                            assert(roots@[witness[j]] == before[witness[j]]);
                        } else {
                            assert(roots@[before.len() as int] == i);
                        }
                    }
                    assert forall|i2: int| start_roots.len() <= i2 < roots@.len() implies #[trigger] roots@[i2] < elements@.len() && exists|j: int|
                        0 <= j < k + 1 && element_view[roots@[i2] as int] == product_names[j] by {
                        if i2 < before.len() {
                            assert(roots@[i2] == before[i2]);
                        }
                    }
                }
            },
            None => {
                proof {
                    assert(element_view.contains(product_names[k as int]));
                    assert(false);
                }
            },
        }
        k = k + 1;
    }
    let ghost root_view = roots@;
    proof {
        assert(product_names.len() == products@.len());
        assert forall|i: int| 0 <= i < roots@.len() implies roots@[i] < lists@.len() by {
            if i < start_roots.len() {
                assert(roots@[i] == start_roots[i]);
            }
        }
        assert forall|j: int| 0 <= j < product_names.len() implies root_named(element_view, root_view, #[trigger] witness[j], product_names[j]) by {
            assert(j < k);
        }
    }
    proof {
        lemma_production_correspond(graph, product_names, view, element_view, lists_of(lists@), root_view, starts@, start_roots, witness);
    }
    let live = reachable(&lists, roots);
    let mut packages: Vec<String> = Vec::new();
    let ghost mut picked: Seq<int> = Seq::empty();
    let mut i: usize = 0;
    while i < elements.len()
        invariant
            element_view == names_view(elements@),
            distinct_texts(element_view),
            live@.len() == elements@.len(),
            i <= elements@.len(),
            picked.len() == packages@.len(),
            forall|j: int| 0 <= j < picked.len() ==> 0 <= #[trigger] picked[j] < i && live@[picked[j]] && names_view(packages@)[j] == element_view[picked[j]],
            forall|j: int, l: int| 0 <= j < l < picked.len() ==> picked[j] < picked[l],
            forall|e: int| 0 <= e < i && live@[e] ==> names_view(packages@).contains(#[trigger] element_view[e]),
        decreases elements@.len() - i,
    {
        if live[i] {
            let ghost before = packages@;
            packages.push(elements[i].clone());
            proof {
                assert(names_view(packages@) =~= names_view(before).push(elements@[i as int]@));
                picked = picked.push(i as int);
                assert forall|e: int| 0 <= e < i + 1 && live@[e] implies names_view(packages@).contains(#[trigger] element_view[e]) by {
                    if e < i {
                        let j = choose|j: int| 0 <= j < names_view(before).len() && names_view(before)[j] == element_view[e];
                        assert(names_view(packages@)[j] == element_view[e]);
                    } else {
                        assert(names_view(packages@)[before.len() as int] == element_view[e]);
                    }
                }
            }
        }
        i = i + 1;
    }
    proof {
        assert forall|j: int, l: int| 0 <= j < l < names_view(packages@).len() implies names_view(packages@)[j] != names_view(packages@)[l] by {
            assert(picked[j] < picked[l]);
            assert(element_view[picked[j]] != element_view[picked[l]]);
        }
        assert forall|name: Seq<char>| names_view(packages@).contains(name) <==> production_package(graph, product_names, name) by {
            if names_view(packages@).contains(name) {
                let j = choose|j: int| 0 <= j < names_view(packages@).len() && names_view(packages@)[j] == name;
                assert(live@[picked[j]]);
            }
            if production_package(graph, product_names, name) {
                let e = lemma_position(element_view, name);
                assert(live@[e]);
            }
        }
    }
    packages
}

/// Whether every platform selector of a dependency use parses.
pub open spec fn uses_parse(nodes: Seq<ResolvedNode>) -> bool {
    forall|k: int, d: int, u: int|
        0 <= k < nodes.len() && 0 <= d < nodes[k].dependencies@.len() && 0 <= u < nodes[k].dependencies@[d].uses@.len()
            ==> selector_parses((#[trigger] nodes[k].dependencies@[d].uses@[u]).target)
}

/// For each use of each dependency of each node, whether it applies to the analysis target:
/// a use without a platform selector always does.
pub open spec fn use_flags(nodes: Seq<ResolvedNode>, target: AnalysisTarget) -> Seq<Seq<Seq<bool>>> {
    Seq::new(
        nodes.len(),
        |k: int| use_row(nodes[k], target),
    )
}

/// The flags of the uses of one node's dependencies.
pub open spec fn use_row(node: ResolvedNode, target: AnalysisTarget) -> Seq<Seq<bool>> {
    Seq::new(node.dependencies@.len(), |d: int| use_line(node.dependencies@[d], target))
}

/// The flags of the uses of one dependency.
pub open spec fn use_line(dependency: ResolvedDependency, target: AnalysisTarget) -> Seq<bool> {
    Seq::new(dependency.uses@.len(), |u: int| selector_applies(dependency.uses@[u].target, target))
}

/// Whether a use's platform selector is the text `selector`.
pub open spec fn selector_is(written: Option<String>, selector: Seq<char>) -> bool {
    written matches Some(text) && text@ == selector
}

/// Checks that every platform selector of the dependency graph parses; refused with one that
/// does not.
fn check_dependency_selectors(nodes: &Vec<ResolvedNode>) -> (checked: Result<(), String>)
    ensures
        checked is Ok <==> uses_parse(nodes@),
        checked matches Err(selector) ==> !crate::settings::platform_parses(selector@) && exists|k: int, d: int, u: int|
            0 <= k < nodes@.len() && 0 <= d < nodes@[k].dependencies@.len() && 0 <= u < nodes@[k].dependencies@[d].uses@.len()
                && selector_is((#[trigger] nodes@[k].dependencies@[d].uses@[u]).target, selector@),
{
    let mut k: usize = 0;
    while k < nodes.len()
        invariant
            k <= nodes@.len(),
            forall|j: int, d: int, u: int|
                0 <= j < k && 0 <= d < nodes@[j].dependencies@.len() && 0 <= u < nodes@[j].dependencies@[d].uses@.len()
                    ==> selector_parses((#[trigger] nodes@[j].dependencies@[d].uses@[u]).target),
        decreases nodes@.len() - k,
    {
        let mut d: usize = 0;
        while d < nodes[k].dependencies.len()
            invariant
                k < nodes@.len(),
                d <= nodes@[k as int].dependencies@.len(),
                forall|j: int, e: int, u: int|
                    0 <= j < k && 0 <= e < nodes@[j].dependencies@.len() && 0 <= u < nodes@[j].dependencies@[e].uses@.len()
                        ==> selector_parses((#[trigger] nodes@[j].dependencies@[e].uses@[u]).target),
                forall|e: int, u: int|
                    0 <= e < d && 0 <= u < nodes@[k as int].dependencies@[e].uses@.len()
                        ==> selector_parses((#[trigger] nodes@[k as int].dependencies@[e].uses@[u]).target),
            decreases nodes@[k as int].dependencies@.len() - d,
        {
            let uses = &nodes[k].dependencies[d].uses;
            let mut u: usize = 0;
            while u < uses.len()
                invariant
                    k < nodes@.len(),
                    d < nodes@[k as int].dependencies@.len(),
                    uses@ == nodes@[k as int].dependencies@[d as int].uses@,
                    u <= uses@.len(),
                    forall|j: int, e: int, v: int|
                        0 <= j < k && 0 <= e < nodes@[j].dependencies@.len() && 0 <= v < nodes@[j].dependencies@[e].uses@.len()
                            ==> selector_parses((#[trigger] nodes@[j].dependencies@[e].uses@[v]).target),
                    forall|e: int, v: int|
                        0 <= e < d && 0 <= v < nodes@[k as int].dependencies@[e].uses@.len()
                            ==> selector_parses((#[trigger] nodes@[k as int].dependencies@[e].uses@[v]).target),
                    forall|v: int| 0 <= v < u ==> selector_parses((#[trigger] uses@[v]).target),
                decreases uses@.len() - u,
            {
                if let Some(text) = &uses[u].target {
                    if crate::settings::selector_text_parses(text.as_str()) == false {
                        proof {
                            assert(nodes@[k as int].dependencies@[d as int].uses@[u as int].target == Some(*text));
                        }
                        return Err(text.clone());
                    }
                }
                u = u + 1;
            }
            d = d + 1;
        }
        k = k + 1;
    }
    Ok(())
}

/// The workspace packages that production builds use for the analysis target: the packages
/// reached from the production products along normal dependencies whose platform selector,
/// if any, selects the target. Refused when Cargo resolved no dependency graph, or when a
/// dependency's platform selector does not parse.
pub fn production_workspace_packages(
    metadata: &WorkspaceMetadata,
    products: &[ProductionSelection],
    target: &AnalysisTarget,
) -> (result: Result<Vec<String>, crate::catalog::WorkspaceError>)
    requires
        target.wf(),
    ensures
        match result {
            Ok(packages) => {
                &&& metadata.resolve is Some
                &&& uses_parse(metadata.resolve->0@)
                &&& distinct_texts(names_view(packages@))
                &&& forall|name: Seq<char>| names_view(packages@).contains(name) <==> production_package(
                    (*metadata, metadata.resolve->0@, use_flags(metadata.resolve->0@, *target)),
                    product_packages(products@),
                    name,
                )
            },
            Err(crate::catalog::WorkspaceError::UnresolvedDependencies) => metadata.resolve is None,
            Err(crate::catalog::WorkspaceError::InvalidDependencyTarget(selector)) => {
                &&& metadata.resolve is Some
                &&& !uses_parse(metadata.resolve->0@)
                &&& !crate::settings::platform_parses(selector@)
                &&& exists|k: int, d: int, u: int|
                    0 <= k < metadata.resolve->0@.len() && 0 <= d < metadata.resolve->0@[k].dependencies@.len()
                        && 0 <= u < metadata.resolve->0@[k].dependencies@[d].uses@.len()
                        && selector_is((#[trigger] metadata.resolve->0@[k].dependencies@[d].uses@[u]).target, selector@)
            },
            Err(_) => false,
        },
{
    let nodes = match &metadata.resolve {
        Some(nodes) => nodes,
        None => return Err(crate::catalog::WorkspaceError::UnresolvedDependencies),
    };
    match check_dependency_selectors(nodes) {
        Ok(()) => {},
        Err(selector) => return Err(crate::catalog::WorkspaceError::InvalidDependencyTarget(selector)),
    }
    let ghost flags = use_flags(nodes@, *target);
    let mut applicable: Vec<Vec<Vec<bool>>> = Vec::new();
    let mut k: usize = 0;
    while k < nodes.len()
        invariant
            flags == use_flags(nodes@, *target),
            uses_parse(nodes@),
            target.wf(),
            k <= nodes@.len(),
            flags_view(applicable@).len() == k,
            forall|j: int| 0 <= j < k ==> #[trigger] flags_view(applicable@)[j] == flags[j],
        decreases nodes@.len() - k,
    {
        let node = &nodes[k];
        let mut row: Vec<Vec<bool>> = Vec::new();
        let mut d: usize = 0;
        while d < node.dependencies.len()
            invariant
                *node == nodes@[k as int],
                k < nodes@.len(),
                uses_parse(nodes@),
                target.wf(),
                d <= node.dependencies@.len(),
                row@.len() == d,
                forall|e: int| 0 <= e < d ==> (#[trigger] row@[e])@ == use_line(node.dependencies@[e], *target),
            decreases node.dependencies@.len() - d,
        {
            let uses = &node.dependencies[d].uses;
            let mut line: Vec<bool> = Vec::new();
            let mut u: usize = 0;
            while u < uses.len()
                invariant
                    *node == nodes@[k as int],
                    k < nodes@.len(),
                    d < node.dependencies@.len(),
                    *uses == node.dependencies@[d as int].uses,
                    uses_parse(nodes@),
                    target.wf(),
                    u <= uses@.len(),
                    line@.len() == u,
                    forall|v: int| 0 <= v < u ==> line@[v] == selector_applies(#[trigger] uses@[v].target, *target),
                decreases uses@.len() - u,
            {
                proof {
                    assert(selector_parses(nodes@[k as int].dependencies@[d as int].uses@[u as int].target));
                }
                let applies = applies_to(&uses[u].target, target);
                line.push(applies);
                u = u + 1;
            }
            proof {
                assert(line@ =~= use_line(node.dependencies@[d as int], *target));
            }
            row.push(line);
            d = d + 1;
        }
        let ghost before = applicable@;
        applicable.push(row);
        proof {
            assert(flags_view(applicable@) =~= flags_view(before).push(flags_view(applicable@)[k as int]));
            assert(flags_view(applicable@)[k as int] =~= use_row(nodes@[k as int], *target));
        }
        k = k + 1;
    }
    proof {
        assert(flags_view(applicable@) =~= flags);
        assert(flags_fit(nodes@, flags_view(applicable@)));
    }
    let packages = production_packages_with(metadata, nodes, &applicable, products);
    Ok(packages)
}

proof fn lemma_production_correspond(
    graph: DependencyGraph,
    product_names: Seq<Seq<char>>,
    names: Seq<Seq<char>>,
    elements: Seq<Seq<char>>,
    lists: Seq<Seq<usize>>,
    roots: Seq<usize>,
    starts: Seq<bool>,
    start_roots: Seq<usize>,
    witness: Seq<int>,
)
    requires
        forall|name: Seq<char>| names.contains(name) <==> is_workspace_name(graph.0, name),
        distinct_texts(elements),
        elements.take(names.len() as int) == names,
        names.len() <= elements.len() <= usize::MAX,
        lists.len() == elements.len(),
        forall|n: int, m: int| 0 <= n < names.len() && 0 <= m < names.len() ==> (#[trigger] has_edge(lists, n, m) <==> depends_normally(graph, names[n], names[m])),
        forall|n: int, m: int| 0 <= n < names.len() && #[trigger] has_edge(lists, n, m) ==> 0 <= m < names.len(),
        forall|n: int| names.len() <= n < lists.len() ==> lists[n].len() == 0,
        starts.len() == names.len(),
        forall|a: int| 0 <= a < names.len() ==> (#[trigger] starts[a] <==> starts_production(graph, names[a])),
        start_roots.len() <= roots.len(),
        forall|i: int| 0 <= i < start_roots.len() ==> roots[i] == start_roots[i],
        forall|i: int| 0 <= i < start_roots.len() ==> #[trigger] start_roots[i] < names.len() && starts[start_roots[i] as int],
        forall|c: int| 0 <= c < names.len() && starts[c] ==> is_root(start_roots, c),
        forall|i: int| start_roots.len() <= i < roots.len() ==> #[trigger] roots[i] < elements.len() && exists|j: int|
            0 <= j < product_names.len() && elements[roots[i] as int] == product_names[j],
        witness.len() == product_names.len(),
        forall|j: int| 0 <= j < product_names.len() ==> root_named(elements, roots, #[trigger] witness[j], product_names[j]),
        forall|i: int| 0 <= i < product_names.len() ==> elements.contains(#[trigger] product_names[i]),
    ensures
        forall|e: int| 0 <= e < elements.len() ==> (reaches(lists, roots, e) <==> production_package(graph, product_names, elements[e])),
        forall|name: Seq<char>| production_package(graph, product_names, name) ==> elements.contains(name),
{
    let relation = |x: Seq<char>, y: Seq<char>| depends_normally(graph, x, y);
    let root = |x: Seq<char>| starts_production(graph, x) || product_names.contains(x);
    assert forall|n: int| 0 <= n < names.len() implies elements[n] == #[trigger] names[n] by {
        assert(elements.take(names.len() as int)[n] == elements[n]);
    }
    assert forall|x: Seq<char>| is_workspace_name(graph.0, x) implies exists|n: int| 0 <= n < names.len() && elements[n] == x by {
        let n = lemma_position(names, x);
        assert(elements[n] == names[n]);
    }
    assert forall|i: int, j: int| 0 <= i < elements.len() && 0 <= j < elements.len() && i != j implies elements[i] != elements[j] by {
        if i < j {
            assert(elements[i] != elements[j]);
        } else {
            assert(elements[j] != elements[i]);
        }
    }
    assert forall|n: int, m: int| 0 <= n < elements.len() && 0 <= m < elements.len() implies (#[trigger] has_edge(lists, n, m) <==> relation(elements[n], elements[m])) by {
        if relation(elements[n], elements[m]) {
            lemma_normal_names(graph, elements[n], elements[m]);
            let n2 = choose|n2: int| 0 <= n2 < names.len() && elements[n2] == elements[n];
            let m2 = choose|m2: int| 0 <= m2 < names.len() && elements[m2] == elements[m];
            assert(n2 == n && m2 == m);
        }
        if has_edge(lists, n, m) {
            if n >= names.len() {
                let i = choose|i: int| 0 <= i < lists[n].len() && #[trigger] lists[n][i] as int == m;
            }
        }
    }
    assert forall|n: int, m: int| #[trigger] has_edge(lists, n, m) implies 0 <= m < elements.len() by {
        if n >= names.len() {
            let i = choose|i: int| 0 <= i < lists[n].len() && #[trigger] lists[n][i] as int == m;
        }
    }
    assert forall|x: Seq<char>, y: Seq<char>| #[trigger] relation(x, y) implies (exists|n: int| 0 <= n < elements.len() && elements[n] == x) && (exists|m: int|
        0 <= m < elements.len() && elements[m] == y) by {
        lemma_normal_names(graph, x, y);
    }
    assert forall|n: int| 0 <= n < elements.len() implies (#[trigger] is_root(roots, n) <==> root(elements[n])) by {
        if is_root(roots, n) {
            let i = choose|i: int| 0 <= i < roots.len() && #[trigger] roots[i] as int == n;
            if i < start_roots.len() {
                assert(start_roots[i] == roots[i]);
                assert(starts[n]);
                assert(elements[n] == names[n]);
            } else {
                let j = choose|j: int| 0 <= j < product_names.len() && elements[roots[i] as int] == product_names[j];
                assert(product_names.contains(elements[n]));
            }
        }
        if root(elements[n]) {
            if starts_production(graph, elements[n]) {
                let n2 = choose|n2: int| 0 <= n2 < names.len() && elements[n2] == elements[n];
                assert(n2 == n);
                assert(names[n] == elements[n]);
                assert(starts[n]);
                let i = choose|i: int| 0 <= i < start_roots.len() && #[trigger] start_roots[i] as int == n;
                assert(roots[i] as int == n);
            } else {
                let j = choose|j: int| 0 <= j < product_names.len() && product_names[j] == elements[n];
                let i = witness[j];
                assert(root_named(elements, roots, witness[j], product_names[j]));
                assert(roots[i] as int == n);
            }
        }
    }
    assert forall|n: int| #[trigger] is_root(roots, n) implies 0 <= n < elements.len() by {
        let i = choose|i: int| 0 <= i < roots.len() && #[trigger] roots[i] as int == n;
        if i < start_roots.len() {
            assert(start_roots[i] == roots[i]);
        }
    }
    assert forall|x: Seq<char>| #[trigger] root(x) implies exists|n: int| 0 <= n < elements.len() && elements[n] == x by {
        if !starts_production(graph, x) {
            let j = choose|j: int| 0 <= j < product_names.len() && product_names[j] == x;
            assert(elements.contains(product_names[j]));
        }
    }
    assert forall|e: int| 0 <= e < elements.len() implies (reaches(lists, roots, e) <==> production_package(graph, product_names, elements[e])) by {
        lemma_walks_correspond(elements, lists, roots, relation, root, e);
    }
    assert forall|name: Seq<char>| production_package(graph, product_names, name) implies elements.contains(name) by {
        let walk = choose|walk: Seq<Seq<char>>| #![trigger crate::reach::is_walk(relation, walk)] crate::reach::is_walk(relation, walk) && root(walk[0]) && walk.last() == name;
        if walk.len() == 1 {
            assert(root(name));
        } else {
            let j = walk.len() - 2;
            assert(relation(walk[j], walk[j + 1]));
        }
    }
}

} // verus!
