//! Dirty detection against the build cache, and the layered build plan.
use crate::cache::{BuildCache, DigestTable};
use crate::hash::{build_digest, deploy_digest, digest_spec, function_digest, import_digest};
use crate::model::{
    build_bytes, deploy_bytes, function_bytes, import_bytes, BuildDoc, DeployDoc, Environment,
    FunctionDoc, Import, Step,
};
use crate::project::{names_unique, Project, ProjectView};
use crate::text::{
    chars_eq_range, chars_of, has_single_slash, join_with_arrow, joined, lex_lt, slash_prefix,
    sort_by_name, split_qualified,
};
use crate::validate::{lemma_valid_deploy, lemma_valid_env, project_valid};
use crate::project::has_build;
use crate::util::{strings_view, LocView};
use crate::graph::{
    acyclic, adj_view, edge, graph_wf, in_layer, is_cycle, layer_nodes, layering_ok, layers_view,
    lemma_ranked_acyclic, member_edge, propagate, reaches, reaches_bad, rotate_cycle, to_ints,
};
use crate::util::{ErrorView, ORError, ORResult};
use vstd::prelude::*;

verus! {

// ---- self-cleanliness: a record's digest equals the one the cache holds ----

pub open spec fn import_digest_spec(i: Import) -> Option<u64> {
    digest_spec(import_bytes(i))
}

pub open spec fn function_digest_spec(f: FunctionDoc) -> Option<u64> {
    digest_spec(function_bytes(f))
}

pub open spec fn build_digest_spec(b: BuildDoc) -> Option<u64> {
    digest_spec(build_bytes(b))
}

pub open spec fn deploy_digest_spec(d: DeployDoc) -> Option<u64> {
    digest_spec(deploy_bytes(d))
}

pub open spec fn import_self_clean(c: BuildCache, i: Import) -> bool {
    import_digest_spec(i) is Some && c.import_hashes.get_spec(i.require@) == import_digest_spec(i)
}

pub open spec fn function_self_clean(c: BuildCache, f: FunctionDoc) -> bool {
    function_digest_spec(f) is Some && c.fn_hashes.get_spec(f.name@) == function_digest_spec(f)
}

pub open spec fn build_self_clean(c: BuildCache, b: BuildDoc) -> bool {
    build_digest_spec(b) is Some && c.build_hashes.get_spec(b.name@) == build_digest_spec(b)
}

pub open spec fn deploy_self_clean(c: BuildCache, d: DeployDoc) -> bool {
    deploy_digest_spec(d) is Some && c.deploy_hashes.get_spec(d.name@) == deploy_digest_spec(d)
}

/// `k` is the first import that requires `name`.
pub open spec fn is_first_import(p: ProjectView, name: Seq<char>, k: int) -> bool {
    &&& 0 <= k < p.imports.len()
    &&& p.imports[k].1.require@ == name
    &&& forall|j: int| 0 <= j < k ==> (#[trigger] p.imports[j]).1.require@ != name
}

/// The plugin `name` is imported, and its (first) import is self-clean.
pub open spec fn plugin_clean(p: ProjectView, c: BuildCache, name: Seq<char>) -> bool {
    exists|k: int| is_first_import(p, name, k) && import_self_clean(c, p.imports[k].1)
}

/// The function `name` exists and is self-clean.
pub open spec fn function_clean(p: ProjectView, c: BuildCache, name: Seq<char>) -> bool {
    exists|k: int|
        0 <= k < p.functions.len() && (#[trigger] p.functions[k]).1.name@ == name
            && function_self_clean(c, p.functions[k].1)
}

/// An environment block's plugin is clean, and so is every function its steps invoke.
pub open spec fn env_clean(p: ProjectView, c: BuildCache, e: Environment) -> bool {
    &&& plugin_clean(p, c, slash_prefix(e.name@))
    &&& forall|s: int|
        0 <= s < e.steps@.len() && (#[trigger] e.steps@[s]) is InvokeFunctionStep
            ==> function_clean(p, c, e.steps@[s]->InvokeFunctionStep_0.invoke_fn@)
}

/// A build is locally clean: its own digest matches, and so do the imports and
/// functions that its environment blocks use.
pub open spec fn locally_clean(p: ProjectView, c: BuildCache, i: int) -> bool {
    &&& build_self_clean(c, p.builds[i].1)
    &&& forall|e: int|
        0 <= e < p.builds[i].1.envs@.len() ==> env_clean(p, c, #[trigger] p.builds[i].1.envs@[e])
}

} // verus!

verus! {

/// Digests of the imports, in order.
pub fn import_digests(p: &Project) -> (r: Vec<Option<u64>>)
    ensures
        r@.len() == p@.imports.len(),
        forall|k: int| 0 <= k < r@.len() ==> r@[k] == import_digest_spec(#[trigger] p@.imports[k].1),
{
    let mut r: Vec<Option<u64>> = Vec::new();
    let mut k: usize = 0;
    while k < p.imports.len()
        invariant
            0 <= k <= p.imports@.len(),
            r@.len() == k,
            forall|j: int| 0 <= j < k ==> r@[j] == import_digest_spec(#[trigger] p@.imports[j].1),
        decreases p.imports@.len() - k,
    {
        r.push(import_digest(&p.imports[k].obj));
        k = k + 1;
    }
    r
}

/// Digests of the functions, in order.
pub fn function_digests(p: &Project) -> (r: Vec<Option<u64>>)
    ensures
        r@.len() == p@.functions.len(),
        forall|k: int| 0 <= k < r@.len() ==> r@[k] == function_digest_spec(#[trigger] p@.functions[k].1),
{
    let mut r: Vec<Option<u64>> = Vec::new();
    let mut k: usize = 0;
    while k < p.functions.len()
        invariant
            0 <= k <= p.functions@.len(),
            r@.len() == k,
            forall|j: int| 0 <= j < k ==> r@[j] == function_digest_spec(#[trigger] p@.functions[j].1),
        decreases p.functions@.len() - k,
    {
        r.push(function_digest(&p.functions[k].obj));
        k = k + 1;
    }
    r
}

/// Digests of the builds, in order.
pub fn build_digests(p: &Project) -> (r: Vec<Option<u64>>)
    ensures
        r@.len() == p@.builds.len(),
        forall|k: int| 0 <= k < r@.len() ==> r@[k] == build_digest_spec(#[trigger] p@.builds[k].1),
{
    let mut r: Vec<Option<u64>> = Vec::new();
    let mut k: usize = 0;
    while k < p.builds.len()
        invariant
            0 <= k <= p.builds@.len(),
            r@.len() == k,
            forall|j: int| 0 <= j < k ==> r@[j] == build_digest_spec(#[trigger] p@.builds[j].1),
        decreases p.builds@.len() - k,
    {
        r.push(build_digest(&p.builds[k].obj));
        k = k + 1;
    }
    r
}

/// Digests of the deploys, in order.
pub fn deploy_digests(p: &Project) -> (r: Vec<Option<u64>>)
    ensures
        r@.len() == p@.deploys.len(),
        forall|k: int| 0 <= k < r@.len() ==> r@[k] == deploy_digest_spec(#[trigger] p@.deploys[k].1),
{
    let mut r: Vec<Option<u64>> = Vec::new();
    let mut k: usize = 0;
    while k < p.deploys.len()
        invariant
            0 <= k <= p.deploys@.len(),
            r@.len() == k,
            forall|j: int| 0 <= j < k ==> r@[j] == deploy_digest_spec(#[trigger] p@.deploys[j].1),
        decreases p.deploys@.len() - k,
    {
        r.push(deploy_digest(&p.deploys[k].obj));
        k = k + 1;
    }
    r
}

/// Whether the cache holds exactly `d` under `key`.
pub fn matches_cache(t: &DigestTable, key: &String, d: Option<u64>) -> (r: bool)
    ensures
        r == (d is Some && t.get_spec(key@) == d),
{
    match d {
        None => false,
        Some(_) => t.get(key) == d,
    }
}

} // verus!

verus! {

/// The first import that requires the characters `c[lo..hi]`.
pub fn first_import_range(p: &Project, c: &Vec<char>, lo: usize, hi: usize) -> (r: Option<usize>)
    requires
        lo <= hi <= c@.len(),
    ensures
        r is Some ==> is_first_import(p@, c@.subrange(lo as int, hi as int), r->0 as int),
        r is None ==> forall|k: int|
            0 <= k < p@.imports.len() ==> (#[trigger] p@.imports[k]).1.require@ != c@.subrange(
                lo as int,
                hi as int,
            ),
{
    let mut i: usize = 0;
    while i < p.imports.len()
        invariant
            0 <= i <= p.imports@.len(),
            lo <= hi <= c@.len(),
            forall|j: int|
                0 <= j < i ==> (#[trigger] p@.imports[j]).1.require@ != c@.subrange(
                    lo as int,
                    hi as int,
                ),
        decreases p.imports@.len() - i,
    {
        let rc = chars_of(p.imports[i].obj.require.as_str());
        if chars_eq_range(&rc, c, lo, hi) {
            return Some(i);
        }
        i = i + 1;
    }
    None
}

/// The position of the function named `name`.
pub fn find_function(p: &Project, name: &String) -> (r: Option<usize>)
    ensures
        r is Some ==> r->0 < p@.functions.len() && p@.functions[r->0 as int].1.name@ == name@,
        r is None ==> forall|k: int|
            0 <= k < p@.functions.len() ==> (#[trigger] p@.functions[k]).1.name@ != name@,
{
    let mut i: usize = 0;
    while i < p.functions.len()
        invariant
            0 <= i <= p.functions@.len(),
            forall|j: int| 0 <= j < i ==> (#[trigger] p@.functions[j]).1.name@ != name@,
        decreases p.functions@.len() - i,
    {
        if p.functions[i].obj.name == *name {
            return Some(i);
        }
        i = i + 1;
    }
    None
}

/// Digests of the records of a project, in the order of its lists.
pub open spec fn digests_match(
    p: ProjectView,
    idig: Seq<Option<u64>>,
    fdig: Seq<Option<u64>>,
) -> bool {
    &&& idig.len() == p.imports.len()
    &&& forall|k: int| 0 <= k < idig.len() ==> idig[k] == import_digest_spec(#[trigger] p.imports[k].1)
    &&& fdig.len() == p.functions.len()
    &&& forall|k: int| 0 <= k < fdig.len() ==> fdig[k] == function_digest_spec(#[trigger] p.functions[k].1)
}

pub fn env_clean_exec(
    p: &Project,
    c: &BuildCache,
    idig: &Vec<Option<u64>>,
    fdig: &Vec<Option<u64>>,
    e: &Environment,
) -> (r: bool)
    requires
        names_unique(p@),
        has_single_slash(e.name@),
        digests_match(p@, idig@, fdig@),
    ensures
        r == env_clean(p@, *c, *e),
{
    let ch = chars_of(e.name.as_str());
    let k = match split_qualified(&ch) {
        Some(k) => k,
        None => { return false; },
    };
    assert(ch@.take(k as int) =~= ch@.subrange(0, k as int));
    let plugin_ok = match first_import_range(p, &ch, 0, k) {
        None => false,
        Some(j) => matches_cache(&c.import_hashes, &p.imports[j].obj.require, idig[j]),
    };
    if !plugin_ok {
        proof {
            if plugin_clean(p@, *c, slash_prefix(e.name@)) {
                let w = choose|w: int| is_first_import(p@, slash_prefix(e.name@), w) && import_self_clean(*c, p@.imports[w].1);
            }
        }
        return false;
    }
    let mut s: usize = 0;
    while s < e.steps.len()
        invariant
            0 <= s <= e.steps@.len(),
            names_unique(p@),
            digests_match(p@, idig@, fdig@),
            forall|t: int|
                0 <= t < s && (#[trigger] e.steps@[t]) is InvokeFunctionStep ==> function_clean(
                    p@,
                    *c,
                    e.steps@[t]->InvokeFunctionStep_0.invoke_fn@,
                ),
        decreases e.steps@.len() - s,
    {
        if let Step::InvokeFunctionStep(f) = &e.steps[s] {
            let ok = match find_function(p, &f.invoke_fn) {
                None => false,
                Some(j) => matches_cache(&c.fn_hashes, &p.functions[j].obj.name, fdig[j]),
            };
            if !ok {
                proof {
                    if function_clean(p@, *c, f.invoke_fn@) {
                        let w = choose|w: int|
                            0 <= w < p@.functions.len() && (#[trigger] p@.functions[w]).1.name@ == f.invoke_fn@
                                && function_self_clean(*c, p@.functions[w].1);
                    }
                }
                return false;
            }
        }
        s = s + 1;
    }
    true
}

/// Whether build `i` is locally clean.
pub fn locally_clean_exec(
    p: &Project,
    c: &BuildCache,
    idig: &Vec<Option<u64>>,
    fdig: &Vec<Option<u64>>,
    bdig: &Vec<Option<u64>>,
    i: usize,
) -> (r: bool)
    requires
        names_unique(p@),
        project_valid(p@),
        digests_match(p@, idig@, fdig@),
        i < p@.builds.len(),
        bdig@.len() == p@.builds.len(),
        forall|k: int| 0 <= k < bdig@.len() ==> bdig@[k] == build_digest_spec(#[trigger] p@.builds[k].1),
    ensures
        r == locally_clean(p@, *c, i as int),
{
    let b = &p.builds[i].obj;
    if !matches_cache(&c.build_hashes, &b.name, bdig[i]) {
        return false;
    }
    let mut e: usize = 0;
    while e < b.envs.len()
        invariant
            0 <= e <= b.envs@.len(),
            *b == p@.builds[i as int].1,
            i < p@.builds.len(),
            names_unique(p@),
            project_valid(p@),
            digests_match(p@, idig@, fdig@),
            forall|t: int| 0 <= t < e ==> env_clean(p@, *c, #[trigger] b.envs@[t]),
        decreases b.envs@.len() - e,
    {
        proof {
            lemma_valid_env(p@, i as int, e as int);
        }
        if !env_clean_exec(p, c, idig, fdig, &b.envs[e]) {
            return false;
        }
        e = e + 1;
    }
    true
}

} // verus!

verus! {

// ---- the dependency graph of a project's builds ----

/// The artifacts a build depends on: its `depends`, then its `from`.
pub open spec fn dep_names(b: BuildDoc) -> Seq<Seq<char>> {
    (match b.depends {
        Some(d) => strings_view(d@),
        None => Seq::empty(),
    }) + (match b.from {
        Some(f) => seq![f@],
        None => Seq::empty(),
    })
}

/// Build `i` depends on build `j`.
pub open spec fn p_edge(p: ProjectView, i: int, j: int) -> bool {
    0 <= i < p.builds.len() && 0 <= j < p.builds.len() && dep_names(p.builds[i].1).contains(
        p.builds[j].1.name@,
    )
}

/// The dependencies of build `i` among the first `k` builds, in order.
pub open spec fn graph_row(p: ProjectView, i: int, k: int) -> Seq<usize>
    decreases k,
{
    if k <= 0 {
        Seq::empty()
    } else if p_edge(p, i, k - 1) {
        graph_row(p, i, k - 1).push((k - 1) as usize)
    } else {
        graph_row(p, i, k - 1)
    }
}

/// The dependency graph of a project, node `i` standing for its `i`-th build.
pub open spec fn project_graph(p: ProjectView) -> Seq<Seq<usize>> {
    Seq::new(p.builds.len(), |i: int| graph_row(p, i, p.builds.len() as int))
}

proof fn lemma_graph_row(p: ProjectView, i: int, k: int)
    requires
        0 <= k <= p.builds.len() <= usize::MAX,
    ensures
        forall|j: int| 0 <= j < p.builds.len() ==> (graph_row(p, i, k).contains(j as usize) <==> (j < k && p_edge(p, i, j))),
        forall|q: int| 0 <= q < graph_row(p, i, k).len() ==> (#[trigger] graph_row(p, i, k)[q]) < k,
    decreases k,
{
    if k > 0 {
        lemma_graph_row(p, i, k - 1);
        let r = graph_row(p, i, k - 1);
        if p_edge(p, i, k - 1) {
            assert forall|j: int| 0 <= j < p.builds.len() implies (graph_row(p, i, k).contains(j as usize) <==> (j < k && p_edge(p, i, j))) by {
                if j == k - 1 {
                    assert(graph_row(p, i, k)[r.len() as int] == j as usize);
                } else if graph_row(p, i, k).contains(j as usize) {
                    let q = choose|q: int| 0 <= q < graph_row(p, i, k).len() && graph_row(p, i, k)[q] == j as usize;
                    assert(q < r.len());
                    assert(r[q] == j as usize);
                } else if j < k && p_edge(p, i, j) {
                    let q = choose|q: int| 0 <= q < r.len() && r[q] == j as usize;
                    assert(graph_row(p, i, k)[q] == j as usize);
                }
            }
        }
    }
}

/// Edges of the project graph are exactly the dependencies between builds.
pub proof fn lemma_project_graph(p: ProjectView)
    requires
        p.builds.len() <= usize::MAX,
    ensures
        graph_wf(project_graph(p)),
        project_graph(p).len() == p.builds.len(),
        forall|i: int, j: int| #[trigger] edge(project_graph(p), i, j) <==> p_edge(p, i, j),
{
    let g = project_graph(p);
    assert forall|i: int, j: int| #[trigger] edge(g, i, j) <==> p_edge(p, i, j) by {
        if 0 <= i < p.builds.len() {
            lemma_graph_row(p, i, p.builds.len() as int);
        }
    }
    assert forall|i: int, k: int| 0 <= i < g.len() && 0 <= k < g[i].len() implies (#[trigger] g[i][k]) < g.len() by {
        lemma_graph_row(p, i, p.builds.len() as int);
    }
}

/// Whether build `b` depends on an artifact named `name`.
pub fn depends_on(b: &BuildDoc, name: &String) -> (r: bool)
    ensures
        r == dep_names(*b).contains(name@),
{
    let ghost ds: Seq<Seq<char>> = if b.depends is Some {
        strings_view(b.depends->0@)
    } else {
        Seq::empty()
    };
    let ghost fs: Seq<Seq<char>> = if b.from is Some {
        seq![b.from->0@]
    } else {
        Seq::empty()
    };
    assert(dep_names(*b) == ds + fs);
    if let Some(d) = &b.depends {
        let mut k: usize = 0;
        while k < d.len()
            invariant
                0 <= k <= d@.len(),
                ds == strings_view(d@),
                dep_names(*b) == ds + fs,
                forall|q: int| 0 <= q < k ==> d@[q]@ != name@,
            decreases d@.len() - k,
        {
            if d[k] == *name {
                assert(ds[k as int] == name@);
                assert((ds + fs)[k as int] == name@);
                return true;
            }
            k = k + 1;
        }
        assert(!ds.contains(name@)) by {
            if ds.contains(name@) {
                let q = choose|q: int| 0 <= q < ds.len() && ds[q] == name@;
                assert(d@[q]@ == name@);
            }
        }
    }
    if let Some(f) = &b.from {
        if *f == *name {
            assert(dep_names(*b)[ds.len() as int] == name@);
            return true;
        }
    }
    assert(dep_names(*b) == ds + fs);
    assert(!dep_names(*b).contains(name@)) by {
        if dep_names(*b).contains(name@) {
            let q = choose|q: int| 0 <= q < dep_names(*b).len() && dep_names(*b)[q] == name@;
            if q < ds.len() {
                assert(ds[q] == name@);
            } else {
                assert(fs[q - ds.len()] == name@);
            }
        }
    }
    false
}

/// The dependency graph of the builds.
pub fn build_graph(p: &Project) -> (r: Vec<Vec<usize>>)
    ensures
        adj_view(r@) == project_graph(p@),
{
    let n = p.builds.len();
    let mut adj: Vec<Vec<usize>> = Vec::new();
    let mut i: usize = 0;
    while i < n
        invariant
            0 <= i <= n,
            n == p@.builds.len(),
            adj@.len() == i,
            forall|x: int| 0 <= x < i ==> (#[trigger] adj@[x])@ == graph_row(p@, x, n as int),
        decreases n - i,
    {
        let mut row: Vec<usize> = Vec::new();
        let mut j: usize = 0;
        while j < n
            invariant
                0 <= j <= n,
                n == p@.builds.len(),
                i < n,
                row@ == graph_row(p@, i as int, j as int),
            decreases n - j,
        {
            if depends_on(&p.builds[i].obj, &p.builds[j].obj.name) {
                row.push(j);
            }
            j = j + 1;
        }
        adj.push(row);
        i = i + 1;
    }
    assert(adj_view(adj@) =~= project_graph(p@));
    adj
}

} // verus!

verus! {

// ---- recording the current digests ----

/// The digest recorded under `q` after writing each `(key, digest)` in turn; a
/// record whose digest could not be computed writes nothing.
pub open spec fn recorded(old: Option<u64>, keys: Seq<(Seq<char>, Option<u64>)>, q: Seq<char>) -> Option<u64>
    decreases keys.len(),
{
    if keys.len() == 0 {
        old
    } else if keys.last().0 == q && keys.last().1 is Some {
        keys.last().1
    } else {
        recorded(old, keys.drop_last(), q)
    }
}

/// What the imports write: the first import of each plugin its digest, the others
/// (which no build reads) nothing.
pub open spec fn import_keys(p: ProjectView) -> Seq<(Seq<char>, Option<u64>)> {
    Seq::new(
        p.imports.len(),
        |k: int|
            (
                p.imports[k].1.require@,
                if is_first_import(p, p.imports[k].1.require@, k) {
                    import_digest_spec(p.imports[k].1)
                } else {
                    None
                },
            ),
    )
}

/// The digests that the imports write: that of the first import of each plugin.
fn first_import_digests(p: &Project, idig: &Vec<Option<u64>>) -> (r: Vec<Option<u64>>)
    requires
        idig@.len() == p@.imports.len(),
        forall|k: int| 0 <= k < idig@.len() ==> idig@[k] == import_digest_spec(#[trigger] p@.imports[k].1),
    ensures
        r@.len() == p@.imports.len(),
        forall|k: int| 0 <= k < r@.len() ==> (#[trigger] r@[k]) == import_keys(p@)[k].1,
{
    let mut r: Vec<Option<u64>> = Vec::new();
    let mut k: usize = 0;
    while k < p.imports.len()
        invariant
            0 <= k <= p@.imports.len(),
            idig@.len() == p@.imports.len(),
            forall|q: int| 0 <= q < idig@.len() ==> idig@[q] == import_digest_spec(#[trigger] p@.imports[q].1),
            r@.len() == k,
            forall|q: int| 0 <= q < k ==> (#[trigger] r@[q]) == import_keys(p@)[q].1,
        decreases p@.imports.len() - k,
    {
        let ch = chars_of(p.imports[k].obj.require.as_str());
        let ghost name = p@.imports[k as int].1.require@;
        assert(ch@.subrange(0, ch@.len() as int) =~= ch@);
        let first = match first_import_range(p, &ch, 0, ch.len()) {
            Some(j) => j == k,
            None => false,
        };
        proof {
            if is_first_import(p@, name, k as int) {
                assert(p@.imports[k as int].1.require@ == name);
            }
        }
        r.push(if first { idig[k] } else { None });
        k = k + 1;
    }
    r
}

pub open spec fn function_keys(p: ProjectView) -> Seq<(Seq<char>, Option<u64>)> {
    p.functions.map_values(|x: (LocView, FunctionDoc)| (x.1.name@, function_digest_spec(x.1)))
}

pub open spec fn build_keys(p: ProjectView) -> Seq<(Seq<char>, Option<u64>)> {
    p.builds.map_values(|x: (LocView, BuildDoc)| (x.1.name@, build_digest_spec(x.1)))
}

pub open spec fn deploy_keys(p: ProjectView) -> Seq<(Seq<char>, Option<u64>)> {
    p.deploys.map_values(|x: (LocView, DeployDoc)| (x.1.name@, deploy_digest_spec(x.1)))
}

/// Writes each `(key, digest)` in turn into a table.
fn record_all(t: &mut DigestTable, keys: &Vec<String>, digests: &Vec<Option<u64>>)
    requires
        keys@.len() == digests@.len(),
    ensures
        forall|q: Seq<char>|
            #![trigger final(t).get_spec(q)]
            final(t).get_spec(q) == recorded(
                old(t).get_spec(q),
                Seq::new(keys@.len(), |k: int| (keys@[k]@, digests@[k])),
                q,
            ),
{
    let ghost t0 = *t;
    let ghost all = Seq::new(keys@.len(), |k: int| (keys@[k]@, digests@[k]));
    let mut k: usize = 0;
    while k < keys.len()
        invariant
            0 <= k <= keys@.len(),
            keys@.len() == digests@.len(),
            all == Seq::new(keys@.len(), |k: int| (keys@[k]@, digests@[k])),
            forall|q: Seq<char>|
                #![trigger t.get_spec(q)]
                t.get_spec(q) == recorded(t0.get_spec(q), all.take(k as int), q),
        decreases keys@.len() - k,
    {
        proof {
            assert(all.take(k + 1).drop_last() =~= all.take(k as int));
        }
        if let Some(d) = digests[k] {
            t.insert(keys[k].clone(), d);
        }
        k = k + 1;
    }
    assert(all.take(keys@.len() as int) =~= all);
}

fn import_names(p: &Project) -> (r: Vec<String>)
    ensures
        r@.len() == p@.imports.len(),
        forall|k: int| 0 <= k < r@.len() ==> (#[trigger] r@[k])@ == p@.imports[k].1.require@,
{
    let mut r: Vec<String> = Vec::new();
    let mut k: usize = 0;
    while k < p.imports.len()
        invariant
            0 <= k <= p.imports@.len(),
            r@.len() == k,
            forall|j: int| 0 <= j < k ==> (#[trigger] r@[j])@ == p@.imports[j].1.require@,
        decreases p.imports@.len() - k,
    {
        r.push(p.imports[k].obj.require.clone());
        k = k + 1;
    }
    r
}

fn function_names(p: &Project) -> (r: Vec<String>)
    ensures
        r@.len() == p@.functions.len(),
        forall|k: int| 0 <= k < r@.len() ==> (#[trigger] r@[k])@ == p@.functions[k].1.name@,
{
    let mut r: Vec<String> = Vec::new();
    let mut k: usize = 0;
    while k < p.functions.len()
        invariant
            0 <= k <= p.functions@.len(),
            r@.len() == k,
            forall|j: int| 0 <= j < k ==> (#[trigger] r@[j])@ == p@.functions[j].1.name@,
        decreases p.functions@.len() - k,
    {
        r.push(p.functions[k].obj.name.clone());
        k = k + 1;
    }
    r
}

fn build_names(p: &Project) -> (r: Vec<String>)
    ensures
        r@.len() == p@.builds.len(),
        forall|k: int| 0 <= k < r@.len() ==> (#[trigger] r@[k])@ == p@.builds[k].1.name@,
{
    let mut r: Vec<String> = Vec::new();
    let mut k: usize = 0;
    while k < p.builds.len()
        invariant
            0 <= k <= p.builds@.len(),
            r@.len() == k,
            forall|j: int| 0 <= j < k ==> (#[trigger] r@[j])@ == p@.builds[j].1.name@,
        decreases p.builds@.len() - k,
    {
        r.push(p.builds[k].obj.name.clone());
        k = k + 1;
    }
    r
}

fn deploy_names(p: &Project) -> (r: Vec<String>)
    ensures
        r@.len() == p@.deploys.len(),
        forall|k: int| 0 <= k < r@.len() ==> (#[trigger] r@[k])@ == p@.deploys[k].1.name@,
{
    let mut r: Vec<String> = Vec::new();
    let mut k: usize = 0;
    while k < p.deploys.len()
        invariant
            0 <= k <= p.deploys@.len(),
            r@.len() == k,
            forall|j: int| 0 <= j < k ==> (#[trigger] r@[j])@ == p@.deploys[j].1.name@,
        decreases p.deploys@.len() - k,
    {
        r.push(p.deploys[k].obj.name.clone());
        k = k + 1;
    }
    r
}

/// Writes the current digest of every record into the cache.
fn record_digests(
    p: &Project,
    c: &mut BuildCache,
    idig: &Vec<Option<u64>>,
    fdig: &Vec<Option<u64>>,
    bdig: &Vec<Option<u64>>,
    ddig: &Vec<Option<u64>>,
)
    requires
        digests_match(p@, idig@, fdig@),
        bdig@.len() == p@.builds.len(),
        forall|k: int| 0 <= k < bdig@.len() ==> bdig@[k] == build_digest_spec(#[trigger] p@.builds[k].1),
        ddig@.len() == p@.deploys.len(),
        forall|k: int| 0 <= k < ddig@.len() ==> ddig@[k] == deploy_digest_spec(#[trigger] p@.deploys[k].1),
    ensures
        cache_recorded(p@, *old(c), *final(c)),
{
    let n1 = import_names(p);
    let firsts = first_import_digests(p, idig);
    record_all(&mut c.import_hashes, &n1, &firsts);
    assert(Seq::new(n1@.len(), |k: int| (n1@[k]@, firsts@[k])) =~= import_keys(p@));
    let n2 = function_names(p);
    record_all(&mut c.fn_hashes, &n2, fdig);
    assert(Seq::new(n2@.len(), |k: int| (n2@[k]@, fdig@[k])) =~= function_keys(p@));
    let n3 = build_names(p);
    record_all(&mut c.build_hashes, &n3, bdig);
    assert(Seq::new(n3@.len(), |k: int| (n3@[k]@, bdig@[k])) =~= build_keys(p@));
    let n4 = deploy_names(p);
    record_all(&mut c.deploy_hashes, &n4, ddig);
    assert(Seq::new(n4@.len(), |k: int| (n4@[k]@, ddig@[k])) =~= deploy_keys(p@));
}

/// The cache after a run: every record's current digest written over the old one.
pub open spec fn cache_recorded(p: ProjectView, c0: BuildCache, c1: BuildCache) -> bool {
    &&& forall|q: Seq<char>|
        #![trigger c1.import_hashes.get_spec(q)]
        c1.import_hashes.get_spec(q) == recorded(c0.import_hashes.get_spec(q), import_keys(p), q)
    &&& forall|q: Seq<char>|
        #![trigger c1.fn_hashes.get_spec(q)]
        c1.fn_hashes.get_spec(q) == recorded(c0.fn_hashes.get_spec(q), function_keys(p), q)
    &&& forall|q: Seq<char>|
        #![trigger c1.build_hashes.get_spec(q)]
        c1.build_hashes.get_spec(q) == recorded(c0.build_hashes.get_spec(q), build_keys(p), q)
    &&& forall|q: Seq<char>|
        #![trigger c1.deploy_hashes.get_spec(q)]
        c1.deploy_hashes.get_spec(q) == recorded(c0.deploy_hashes.get_spec(q), deploy_keys(p), q)
}

} // verus!

verus! {

// ---- the plan ----

/// The builds that must be rebuilt because of themselves: all of them when a
/// rebuild is asked for, else those that are not locally clean.
pub open spec fn bad_mask(p: ProjectView, c: BuildCache, rebuild: bool) -> Seq<bool> {
    Seq::new(p.builds.len(), |i: int| rebuild || !locally_clean(p, c, i))
}

/// Build `i` is dirty: it depends, directly or through other builds, on a build
/// that must be rebuilt (itself included).
pub open spec fn is_dirty(p: ProjectView, c: BuildCache, rebuild: bool, i: int) -> bool {
    reaches_bad(project_graph(p), bad_mask(p, c, rebuild), i)
}

pub open spec fn dirty_mask(p: ProjectView, c: BuildCache, rebuild: bool) -> Seq<bool> {
    Seq::new(p.builds.len(), |i: int| is_dirty(p, c, rebuild, i))
}

/// Build `j` is planned: it is dirty, or some dirty build depends on it, directly
/// or through others (it must be rebuilt to provide that build's inputs).
pub open spec fn is_planned(p: ProjectView, c: BuildCache, rebuild: bool, j: int) -> bool {
    exists|d: int| 0 <= d < p.builds.len() && #[trigger] is_dirty(p, c, rebuild, d) && reaches(project_graph(p), d, j)
}

pub open spec fn planned_mask(p: ProjectView, c: BuildCache, rebuild: bool) -> Seq<bool> {
    Seq::new(p.builds.len(), |j: int| is_planned(p, c, rebuild, j))
}

/// Deploy `d` is dirty: a rebuild is asked for, its own digest changed, or its
/// artifact is dirty.
pub open spec fn deploy_dirty(p: ProjectView, c: BuildCache, rebuild: bool, d: int) -> bool {
    ||| rebuild
    ||| !deploy_self_clean(c, p.deploys[d].1)
    ||| exists|i: int|
        0 <= i < p.builds.len() && (#[trigger] p.builds[i]).1.name@ == p.deploys[d].1.artifact@
            && is_dirty(p, c, rebuild, i)
}

/// Names in strictly increasing order.
pub open spec fn names_sorted(s: Seq<Seq<char>>) -> bool {
    forall|a: int, b: int| 0 <= a < b < s.len() ==> lex_lt(s[a], s[b])
}

/// Some build that `mask` selects is named `name`.
pub open spec fn selected_build(p: ProjectView, mask: Seq<bool>, name: Seq<char>) -> bool {
    exists|i: int| 0 <= i < p.builds.len() && mask[i] && (#[trigger] p.builds[i]).1.name@ == name
}

/// Some deploy that `mask` selects is named `name`.
pub open spec fn selected_deploy(p: ProjectView, mask: Seq<bool>, name: Seq<char>) -> bool {
    exists|i: int| 0 <= i < p.deploys.len() && mask[i] && (#[trigger] p.deploys[i]).1.name@ == name
}

/// `out` holds, in increasing order, the names of the builds that `mask` selects.
pub open spec fn selects_builds(p: ProjectView, mask: Seq<bool>, out: Seq<Seq<char>>) -> bool {
    &&& names_sorted(out)
    &&& forall|k: int| 0 <= k < out.len() ==> #[trigger] selected_build(p, mask, out[k])
    &&& forall|i: int| 0 <= i < p.builds.len() && mask[i] ==> out.contains(#[trigger] p.builds[i].1.name@)
}

/// `out` holds, in increasing order, the names of the deploys that `mask` selects.
pub open spec fn selects_deploys(p: ProjectView, mask: Seq<bool>, out: Seq<Seq<char>>) -> bool {
    &&& names_sorted(out)
    &&& forall|k: int| 0 <= k < out.len() ==> #[trigger] selected_deploy(p, mask, out[k])
    &&& forall|i: int| 0 <= i < p.deploys.len() && mask[i] ==> out.contains(#[trigger] p.deploys[i].1.name@)
}

pub open spec fn layer_mask(n: int, layer: Seq<usize>) -> Seq<bool> {
    Seq::new(n as nat, |i: int| layer.contains(i as usize))
}

/// An ordered build plan.
#[derive(Debug)]
pub struct OrderedDependencyGraph {
    /// Artifacts to build, layer by layer; each layer in increasing name order.
    pub layers: Vec<Vec<String>>,
    /// Each planned artifact, in name order, with the artifacts it depends on
    /// directly or through others (all of them planned), in name order.
    pub artifact_deps: Vec<(String, Vec<String>)>,
    /// Deploys to run after every layer, in name order.
    pub deploys: Vec<String>,
}

/// `plan` is the plan for the planned builds (the dirty ones and all they depend
/// on): layered as `layers` (a layering of those builds by their dependencies),
/// with the dirty deploys after them.
#[verifier::opaque]
pub open spec fn plan_matches(
    p: ProjectView,
    c: BuildCache,
    rebuild: bool,
    layers: Seq<Seq<usize>>,
    plan: OrderedDependencyGraph,
) -> bool {
    &&& layering_ok(project_graph(p), planned_mask(p, c, rebuild), layers)
    &&& plan.layers@.len() == layers.len()
    &&& forall|a: int|
        0 <= a < layers.len() ==> selects_builds(
            p,
            layer_mask(p.builds.len() as int, layers[a]),
            strings_view((#[trigger] plan.layers@[a])@),
        )
    &&& selects_deploys(
        p,
        Seq::new(p.deploys.len(), |d: int| deploy_dirty(p, c, rebuild, d)),
        strings_view(plan.deploys@),
    )
    &&& selects_builds(p, planned_mask(p, c, rebuild), plan.artifact_deps@.map_values(|e: (String, Vec<String>)| e.0@))
    &&& forall|k: int| 0 <= k < plan.artifact_deps@.len() ==> #[trigger] deps_entry_ok(p, c, rebuild, plan.artifact_deps@[k])
}

/// The builds that build `i` depends on, directly or through others.
pub open spec fn deps_mask(p: ProjectView, i: int) -> Seq<bool> {
    Seq::new(p.builds.len(), |j: int| j != i && reaches(project_graph(p), i, j))
}

/// An entry names a build and lists the builds it depends on.
pub open spec fn deps_entry_ok(p: ProjectView, c: BuildCache, rebuild: bool, e: (String, Vec<String>)) -> bool {
    exists|i: int|
        0 <= i < p.builds.len() && (#[trigger] p.builds[i]).1.name@ == e.0@ && selects_builds(
            p,
            deps_mask(p, i),
            strings_view(e.1@),
        )
}

/// The names of the builds that `mask` selects, in increasing order, given the
/// builds' positions sorted by name.
fn select_builds(p: &Project, order: &Vec<usize>, mask: &Vec<bool>) -> (r: Vec<String>)
    requires
        mask@.len() == p@.builds.len(),
        order@.len() == p@.builds.len(),
        forall|k: int| 0 <= k < order@.len() ==> (#[trigger] order@[k]) < p@.builds.len(),
        forall|i: int| 0 <= i < p@.builds.len() ==> #[trigger] order@.contains(i as usize),
        forall|a: int, b: int|
            0 <= a < b < order@.len() ==> lex_lt(
                p@.builds[order@[a] as int].1.name@,
                p@.builds[order@[b] as int].1.name@,
            ),
    ensures
        selects_builds(p@, mask@, strings_view(r@)),
{
    let n = order.len();
    let mut r: Vec<String> = Vec::new();
    let ghost mut src: Seq<int> = Seq::empty();
    let mut k: usize = 0;
    while k < order.len()
        invariant
            0 <= k <= order@.len(),
            mask@.len() == p@.builds.len(),
            order@.len() == p@.builds.len(),
            forall|q: int| 0 <= q < order@.len() ==> (#[trigger] order@[q]) < p@.builds.len(),
            forall|a: int, b: int|
                0 <= a < b < order@.len() ==> lex_lt(
                    p@.builds[order@[a] as int].1.name@,
                    p@.builds[order@[b] as int].1.name@,
                ),
            src.len() == r@.len(),
            forall|t: int| 0 <= t < src.len() ==> 0 <= #[trigger] src[t] < k,
            forall|t: int, u: int| 0 <= t < u < src.len() ==> src[t] < src[u],
            forall|t: int|
                0 <= t < src.len() ==> mask@[order@[#[trigger] src[t]] as int] && r@[t]@
                    == p@.builds[order@[src[t]] as int].1.name@,
            forall|q: int|
                0 <= q < k && mask@[order@[q] as int] ==> exists|t: int|
                    0 <= t < src.len() && #[trigger] src[t] == q,
        decreases order@.len() - k,
    {
        let i = order[k];
        if mask[i] {
            r.push(p.builds[i].obj.name.clone());
            proof {
                let old_src = src;
                src = src.push(k as int);
                assert forall|q: int| 0 <= q < k + 1 && mask@[order@[q] as int] implies exists|t: int|
                    0 <= t < src.len() && #[trigger] src[t] == q by {
                    if q < k {
                        let t = choose|t: int| 0 <= t < old_src.len() && #[trigger] old_src[t] == q;
                        assert(src[t] == q);
                    } else {
                        assert(src[old_src.len() as int] == q);
                    }
                }
            }
        }
        k = k + 1;
    }
    proof {
        let out = strings_view(r@);
        assert forall|a: int, b: int| 0 <= a < b < out.len() implies lex_lt(out[a], out[b]) by {
            assert(src[a] < src[b]);
            assert(lex_lt(p@.builds[order@[src[a]] as int].1.name@, p@.builds[order@[src[b]] as int].1.name@));
            assert(out[a] == p@.builds[order@[src[a]] as int].1.name@);
            assert(out[b] == p@.builds[order@[src[b]] as int].1.name@);
        }
        assert(names_sorted(out));
        assert forall|t: int| 0 <= t < out.len() implies #[trigger] selected_build(p@, mask@, out[t]) by {
            let i = order@[src[t]] as int;
            assert(mask@[i] && out[t] == p@.builds[i].1.name@);
        }
        assert forall|i: int| 0 <= i < p@.builds.len() && mask@[i] implies out.contains(#[trigger] p@.builds[i].1.name@) by {
            assert(order@.contains(i as usize));
            let q = choose|q: int| 0 <= q < order@.len() && order@[q] == i as usize;
            assert(order@[q] as int == i);
            assert(mask@[order@[q] as int]);
            assert(q < k);
            let t = choose|t: int| 0 <= t < src.len() && #[trigger] src[t] == q;
            assert(out[t] == p@.builds[i].1.name@);
        }
        assert(selects_builds(p@, mask@, out));
    }
    r
}


/// The names of the deploys that `mask` selects, in increasing order, given the
/// deploys' positions sorted by name.
fn select_deploys(p: &Project, order: &Vec<usize>, mask: &Vec<bool>) -> (r: Vec<String>)
    requires
        mask@.len() == p@.deploys.len(),
        order@.len() == p@.deploys.len(),
        forall|k: int| 0 <= k < order@.len() ==> (#[trigger] order@[k]) < p@.deploys.len(),
        forall|i: int| 0 <= i < p@.deploys.len() ==> #[trigger] order@.contains(i as usize),
        forall|a: int, b: int|
            0 <= a < b < order@.len() ==> lex_lt(
                p@.deploys[order@[a] as int].1.name@,
                p@.deploys[order@[b] as int].1.name@,
            ),
    ensures
        selects_deploys(p@, mask@, strings_view(r@)),
{
    let n = order.len();
    let mut r: Vec<String> = Vec::new();
    let ghost mut src: Seq<int> = Seq::empty();
    let mut k: usize = 0;
    while k < order.len()
        invariant
            0 <= k <= order@.len(),
            mask@.len() == p@.deploys.len(),
            order@.len() == p@.deploys.len(),
            forall|q: int| 0 <= q < order@.len() ==> (#[trigger] order@[q]) < p@.deploys.len(),
            forall|a: int, b: int|
                0 <= a < b < order@.len() ==> lex_lt(
                    p@.deploys[order@[a] as int].1.name@,
                    p@.deploys[order@[b] as int].1.name@,
                ),
            src.len() == r@.len(),
            forall|t: int| 0 <= t < src.len() ==> 0 <= #[trigger] src[t] < k,
            forall|t: int, u: int| 0 <= t < u < src.len() ==> src[t] < src[u],
            forall|t: int|
                0 <= t < src.len() ==> mask@[order@[#[trigger] src[t]] as int] && r@[t]@
                    == p@.deploys[order@[src[t]] as int].1.name@,
            forall|q: int|
                0 <= q < k && mask@[order@[q] as int] ==> exists|t: int|
                    0 <= t < src.len() && #[trigger] src[t] == q,
        decreases order@.len() - k,
    {
        let i = order[k];
        if mask[i] {
            r.push(p.deploys[i].obj.name.clone());
            proof {
                let old_src = src;
                src = src.push(k as int);
                assert forall|q: int| 0 <= q < k + 1 && mask@[order@[q] as int] implies exists|t: int|
                    0 <= t < src.len() && #[trigger] src[t] == q by {
                    if q < k {
                        let t = choose|t: int| 0 <= t < old_src.len() && #[trigger] old_src[t] == q;
                        assert(src[t] == q);
                    } else {
                        assert(src[old_src.len() as int] == q);
                    }
                }
            }
        }
        k = k + 1;
    }
    proof {
        let out = strings_view(r@);
        assert forall|a: int, b: int| 0 <= a < b < out.len() implies lex_lt(out[a], out[b]) by {
            assert(src[a] < src[b]);
            assert(lex_lt(p@.deploys[order@[src[a]] as int].1.name@, p@.deploys[order@[src[b]] as int].1.name@));
            assert(out[a] == p@.deploys[order@[src[a]] as int].1.name@);
            assert(out[b] == p@.deploys[order@[src[b]] as int].1.name@);
        }
        assert(names_sorted(out));
        assert forall|t: int| 0 <= t < out.len() implies #[trigger] selected_deploy(p@, mask@, out[t]) by {
            let i = order@[src[t]] as int;
            assert(mask@[i] && out[t] == p@.deploys[i].1.name@);
        }
        assert forall|i: int| 0 <= i < p@.deploys.len() && mask@[i] implies out.contains(#[trigger] p@.deploys[i].1.name@) by {
            assert(order@.contains(i as usize));
            let q = choose|q: int| 0 <= q < order@.len() && order@[q] == i as usize;
            assert(order@[q] as int == i);
            assert(mask@[order@[q] as int]);
            assert(q < k);
            let t = choose|t: int| 0 <= t < src.len() && #[trigger] src[t] == q;
            assert(out[t] == p@.deploys[i].1.name@);
        }
        assert(selects_deploys(p@, mask@, out));
    }
    r
}

} // verus!

verus! {

pub open spec fn all_members(n: int) -> Seq<bool> {
    Seq::new(n as nat, |i: int| true)
}

/// A graph that can be layered has no cycle.
pub proof fn lemma_layered_acyclic(g: Seq<Seq<usize>>, layers: Seq<Seq<usize>>)
    requires
        layering_ok(g, all_members(g.len() as int), layers),
    ensures
        acyclic(g),
{
    let m = all_members(g.len() as int);
    let rank = |i: int| choose|a: int| in_layer(layers, a, i);
    assert forall|i: int, j: int| edge(g, i, j) implies rank(j) < rank(i) by {
        assert(m[i] && m[j]);
        assert(member_edge(g, m, i, j));
    }
    lemma_ranked_acyclic(g, rank);
}

/// A cycle that visits no build twice (but for its end, which is its start) and
/// starts at its earliest build in the project's order.
pub open spec fn earliest_simple_cycle(p: ProjectView, w: Seq<int>) -> bool {
    &&& is_cycle(project_graph(p), w)
    &&& w.drop_last().no_duplicates()
    &&& forall|k: int| 0 <= k < w.len() ==> w[0] <= #[trigger] w[k]
}

/// The names of the builds along a walk, joined with arrows.
pub open spec fn cycle_text(p: ProjectView, w: Seq<int>) -> Seq<char> {
    joined(w.map_values(|i: int| p.builds[i].1.name@), " → "@)
}

fn all_true(n: usize) -> (r: Vec<bool>)
    ensures
        r@ == all_members(n as int),
{
    let mut r: Vec<bool> = Vec::new();
    let mut i: usize = 0;
    while i < n
        invariant
            0 <= i <= n,
            r@.len() == i,
            forall|k: int| 0 <= k < i ==> r@[k],
        decreases n - i,
    {
        r.push(true);
        i = i + 1;
    }
    assert(r@ =~= all_members(n as int));
    r
}

fn mask_of(n: usize, layer: &Vec<usize>) -> (r: Vec<bool>)
    ensures
        r@ == layer_mask(n as int, layer@),
{
    let mut r: Vec<bool> = Vec::new();
    let mut i: usize = 0;
    while i < n
        invariant
            0 <= i <= n,
            r@.len() == i,
            forall|k: int| 0 <= k < i ==> r@[k] == layer@.contains(k as usize),
        decreases n - i,
    {
        let mut found = false;
        let mut q: usize = 0;
        while q < layer.len()
            invariant
                0 <= q <= layer@.len(),
                found == exists|t: int| 0 <= t < q && layer@[t] == i,
            decreases layer@.len() - q,
        {
            if layer[q] == i {
                found = true;
            }
            q = q + 1;
        }
        r.push(found);
        i = i + 1;
    }
    assert(r@ =~= layer_mask(n as int, layer@));
    r
}

fn names_chars(names: &Vec<String>) -> (r: Vec<Vec<char>>)
    ensures
        r@.len() == names@.len(),
        forall|k: int| 0 <= k < r@.len() ==> (#[trigger] r@[k])@ == names@[k]@,
{
    let mut r: Vec<Vec<char>> = Vec::new();
    let mut k: usize = 0;
    while k < names.len()
        invariant
            0 <= k <= names@.len(),
            r@.len() == k,
            forall|j: int| 0 <= j < k ==> (#[trigger] r@[j])@ == names@[j]@,
        decreases names@.len() - k,
    {
        r.push(chars_of(names[k].as_str()));
        k = k + 1;
    }
    r
}

fn cycle_names(p: &Project, cyc: &Vec<usize>) -> (r: Vec<String>)
    requires
        forall|k: int| 0 <= k < cyc@.len() ==> (#[trigger] cyc@[k]) < p@.builds.len(),
    ensures
        r@.map_values(|s: String| s@) == to_ints(cyc@).map_values(|i: int| p@.builds[i].1.name@),
{
    let mut r: Vec<String> = Vec::new();
    let mut k: usize = 0;
    while k < cyc.len()
        invariant
            0 <= k <= cyc@.len(),
            forall|q: int| 0 <= q < cyc@.len() ==> (#[trigger] cyc@[q]) < p@.builds.len(),
            r@.len() == k,
            forall|j: int| 0 <= j < k ==> (#[trigger] r@[j])@ == p@.builds[cyc@[j] as int].1.name@,
        decreases cyc@.len() - k,
    {
        r.push(p.builds[cyc[k]].obj.name.clone());
        k = k + 1;
    }
    assert(r@.map_values(|s: String| s@) =~= to_ints(cyc@).map_values(|i: int| p@.builds[i].1.name@));
    r
}

fn bad_builds(
    p: &Project,
    c: &BuildCache,
    idig: &Vec<Option<u64>>,
    fdig: &Vec<Option<u64>>,
    bdig: &Vec<Option<u64>>,
    rebuild: bool,
) -> (r: Vec<bool>)
    requires
        names_unique(p@),
        project_valid(p@),
        digests_match(p@, idig@, fdig@),
        bdig@.len() == p@.builds.len(),
        forall|k: int| 0 <= k < bdig@.len() ==> bdig@[k] == build_digest_spec(#[trigger] p@.builds[k].1),
    ensures
        r@ == bad_mask(p@, *c, rebuild),
{
    let mut r: Vec<bool> = Vec::new();
    let mut i: usize = 0;
    while i < p.builds.len()
        invariant
            0 <= i <= p@.builds.len(),
            names_unique(p@),
            project_valid(p@),
            digests_match(p@, idig@, fdig@),
            bdig@.len() == p@.builds.len(),
            forall|k: int| 0 <= k < bdig@.len() ==> bdig@[k] == build_digest_spec(#[trigger] p@.builds[k].1),
            r@.len() == i,
            forall|k: int| 0 <= k < i ==> r@[k] == (rebuild || !locally_clean(p@, *c, k)),
        decreases p@.builds.len() - i,
    {
        let b = rebuild || !locally_clean_exec(p, c, idig, fdig, bdig, i);
        r.push(b);
        i = i + 1;
    }
    assert(r@ =~= bad_mask(p@, *c, rebuild));
    r
}

} // verus!

verus! {

/// The position of the build named `name`.
pub fn find_build(p: &Project, name: &String) -> (r: Option<usize>)
    ensures
        r is Some ==> r->0 < p@.builds.len() && p@.builds[r->0 as int].1.name@ == name@,
        r is None ==> !has_build(p@, name@),
{
    let mut i: usize = 0;
    while i < p.builds.len()
        invariant
            0 <= i <= p.builds@.len(),
            forall|j: int| 0 <= j < i ==> (#[trigger] p@.builds[j]).1.name@ != name@,
        decreases p.builds@.len() - i,
    {
        if p.builds[i].obj.name == *name {
            return Some(i);
        }
        i = i + 1;
    }
    None
}

fn dirty_deploys(
    p: &Project,
    c: &BuildCache,
    ddig: &Vec<Option<u64>>,
    dirty: &Vec<bool>,
    rebuild: bool,
) -> (r: Vec<bool>)
    requires
        names_unique(p@),
        project_valid(p@),
        ddig@.len() == p@.deploys.len(),
        forall|k: int| 0 <= k < ddig@.len() ==> ddig@[k] == deploy_digest_spec(#[trigger] p@.deploys[k].1),
        dirty@ == dirty_mask(p@, *c, rebuild),
    ensures
        r@ == Seq::new(p@.deploys.len(), |d: int| deploy_dirty(p@, *c, rebuild, d)),
{
    let mut r: Vec<bool> = Vec::new();
    let mut d: usize = 0;
    while d < p.deploys.len()
        invariant
            0 <= d <= p@.deploys.len(),
            names_unique(p@),
            project_valid(p@),
            ddig@.len() == p@.deploys.len(),
            forall|k: int| 0 <= k < ddig@.len() ==> ddig@[k] == deploy_digest_spec(#[trigger] p@.deploys[k].1),
            dirty@ == dirty_mask(p@, *c, rebuild),
            r@.len() == d,
            forall|k: int| 0 <= k < d ==> r@[k] == deploy_dirty(p@, *c, rebuild, k),
        decreases p@.deploys.len() - d,
    {
        let dep = &p.deploys[d].obj;
        let self_clean = matches_cache(&c.deploy_hashes, &dep.name, ddig[d]);
        let art_dirty = match find_build(p, &dep.artifact) {
            Some(i) => dirty[i],
            None => false,
        };
        proof {
            lemma_valid_deploy(p@, d as int);
            if exists|i: int|
                0 <= i < p@.builds.len() && (#[trigger] p@.builds[i]).1.name@ == p@.deploys[d as int].1.artifact@
                    && is_dirty(p@, *c, rebuild, i) {
                let i = choose|i: int|
                    0 <= i < p@.builds.len() && (#[trigger] p@.builds[i]).1.name@ == p@.deploys[d as int].1.artifact@
                        && is_dirty(p@, *c, rebuild, i);
                assert(dirty@[i]);
            }
        }
        r.push(rebuild || !self_clean || art_dirty);
        d = d + 1;
    }
    assert(r@ =~= Seq::new(p@.deploys.len(), |d: int| deploy_dirty(p@, *c, rebuild, d)));
    r
}

fn cycle_error(p: &Project, adj: &Vec<Vec<usize>>, found: &Vec<usize>) -> (e: ORError)
    requires
        p@.builds.len() <= usize::MAX,
        adj_view(adj@) == project_graph(p@),
        is_cycle(project_graph(p@), to_ints(found@)),
        found@.drop_last().no_duplicates(),
    ensures
        !acyclic(project_graph(p@)),
        exists|w: Seq<int>| #[trigger] earliest_simple_cycle(p@, w) && e@ == ErrorView::CircularDependency(cycle_text(p@, w)),
{
    let cyc = rotate_cycle(adj, found);
    let cyc = &cyc;
    proof {
        lemma_project_graph(p@);
        assert forall|k: int| 0 <= k < cyc@.len() implies (#[trigger] cyc@[k]) < p@.builds.len() by {
            assert(to_ints(cyc@)[k] == cyc@[k] as int);
        }
    }
    let names = cycle_names(p, cyc);
    let text = join_with_arrow(&names);
    proof {
        let w = to_ints(cyc@);
        assert(text@ == cycle_text(p@, w));
        assert(w.drop_last().no_duplicates()) by {
            assert forall|a: int, b: int| 0 <= a < w.drop_last().len() && 0 <= b < w.drop_last().len() && a != b
                implies w.drop_last()[a] != w.drop_last()[b] by {
                assert(cyc@.drop_last()[a] != cyc@.drop_last()[b]);
            }
        }
        assert forall|k: int| 0 <= k < w.len() implies w[0] <= #[trigger] w[k] by {
            assert(cyc@[0] <= cyc@[k]);
        }
        assert(earliest_simple_cycle(p@, w));
    }
    ORError::CircularDependency(text)
}

/// The names of each layer's builds, in increasing order.
fn name_layers(p: &Project, plan_layers: &Vec<Vec<usize>>) -> (r: Vec<Vec<String>>)
    requires
        names_unique(p@),
    ensures
        r@.len() == plan_layers@.len(),
        forall|b: int|
            0 <= b < r@.len() ==> selects_builds(
                p@,
                layer_mask(p@.builds.len() as int, plan_layers@[b]@),
                strings_view((#[trigger] r@[b])@),
            ),
{
    let n = p.builds.len();
    let bnames = build_names(p);
    let bchars = names_chars(&bnames);
    assert forall|i: int, j: int| 0 <= i < j < bchars@.len() implies bchars@[i]@ != bchars@[j]@ by {
        assert(bchars@[i]@ == p@.builds[i].1.name@);
        assert(bchars@[j]@ == p@.builds[j].1.name@);
    }
    let order = sort_by_name(&bchars);
    assert forall|x: int, y: int| 0 <= x < y < order@.len() implies lex_lt(
        p@.builds[order@[x] as int].1.name@,
        p@.builds[order@[y] as int].1.name@,
    ) by {
        assert(bchars@[order@[x] as int]@ == p@.builds[order@[x] as int].1.name@);
        assert(bchars@[order@[y] as int]@ == p@.builds[order@[y] as int].1.name@);
    }
    let mut layers: Vec<Vec<String>> = Vec::new();
    let mut a: usize = 0;
    while a < plan_layers.len()
        invariant
            0 <= a <= plan_layers@.len(),
            n == p@.builds.len(),
            order@.len() == n,
            forall|k: int| 0 <= k < order@.len() ==> (#[trigger] order@[k]) < n,
            forall|i: int| 0 <= i < n ==> #[trigger] order@.contains(i as usize),
            forall|x: int, y: int|
                0 <= x < y < order@.len() ==> lex_lt(
                    p@.builds[order@[x] as int].1.name@,
                    p@.builds[order@[y] as int].1.name@,
                ),
            layers@.len() == a,
            forall|b: int|
                0 <= b < a ==> selects_builds(
                    p@,
                    layer_mask(n as int, plan_layers@[b]@),
                    strings_view((#[trigger] layers@[b])@),
                ),
        decreases plan_layers@.len() - a,
    {
        let mask = mask_of(n, &plan_layers[a]);
        let names = select_builds(p, &order, &mask);
        layers.push(names);
        a = a + 1;
    }
    layers
}

/// The names of the deploys that `mask` selects, in increasing order.
fn name_deploys(p: &Project, mask: &Vec<bool>) -> (r: Vec<String>)
    requires
        names_unique(p@),
        mask@.len() == p@.deploys.len(),
    ensures
        selects_deploys(p@, mask@, strings_view(r@)),
{
    let dnames = deploy_names(p);
    let dchars = names_chars(&dnames);
    assert forall|i: int, j: int| 0 <= i < j < dchars@.len() implies dchars@[i]@ != dchars@[j]@ by {
        assert(dchars@[i]@ == p@.deploys[i].1.name@);
        assert(dchars@[j]@ == p@.deploys[j].1.name@);
    }
    let dorder = sort_by_name(&dchars);
    assert forall|x: int, y: int| 0 <= x < y < dorder@.len() implies lex_lt(
        p@.deploys[dorder@[x] as int].1.name@,
        p@.deploys[dorder@[y] as int].1.name@,
    ) by {
        assert(dchars@[dorder@[x] as int]@ == p@.deploys[dorder@[x] as int].1.name@);
        assert(dchars@[dorder@[y] as int]@ == p@.deploys[dorder@[y] as int].1.name@);
    }
    select_deploys(p, &dorder, mask)
}

/// Marks the one node `j`.
fn only(n: usize, j: usize) -> (r: Vec<bool>)
    ensures
        r@ == Seq::new(n as nat, |k: int| k == j),
{
    let mut r: Vec<bool> = Vec::new();
    let mut k: usize = 0;
    while k < n
        invariant
            0 <= k <= n,
            r@.len() == k,
            forall|q: int| 0 <= q < k ==> r@[q] == (q == j),
        decreases n - k,
    {
        r.push(k == j);
        k = k + 1;
    }
    assert(r@ =~= Seq::new(n as nat, |k: int| k == j));
    r
}

/// For each build `j`, which builds reach it.
fn reach_table(adj: &Vec<Vec<usize>>, order_layers: &Vec<Vec<usize>>) -> (r: Vec<Vec<bool>>)
    requires
        graph_wf(adj_view(adj@)),
        layering_ok(adj_view(adj@), all_members(adj@.len() as int), layers_view(order_layers@)),
    ensures
        r@.len() == adj@.len(),
        forall|j: int, i: int|
            0 <= j < adj@.len() && 0 <= i < adj@.len() ==> (#[trigger] r@[j]@[i] <==> reaches(adj_view(adj@), i, j)),
        forall|j: int| 0 <= j < adj@.len() ==> (#[trigger] r@[j])@.len() == adj@.len(),
{
    let n = adj.len();
    let ghost g = adj_view(adj@);
    let mut r: Vec<Vec<bool>> = Vec::new();
    let mut j: usize = 0;
    assert(all_members(n as int) =~= Seq::new(adj@.len(), |i: int| true));
    while j < n
        invariant
            0 <= j <= n,
            n == adj@.len(),
            g == adj_view(adj@),
            graph_wf(g),
            layering_ok(g, Seq::new(adj@.len(), |i: int| true), layers_view(order_layers@)),
            r@.len() == j,
            forall|q: int, i: int| 0 <= q < j && 0 <= i < n ==> (#[trigger] r@[q]@[i] <==> reaches(g, i, q)),
            forall|q: int| 0 <= q < j ==> (#[trigger] r@[q])@.len() == n,
        decreases n - j,
    {
        let target = only(n, j);
        let col = propagate(adj, order_layers, &target);
        proof {
            assert forall|i: int| 0 <= i < n implies (col@[i] <==> reaches(g, i, j as int)) by {
                if reaches(g, i, j as int) {
                    assert(target@[j as int]);
                }
                if col@[i] {
                    let k = choose|k: int| reaches(g, i, k) && target@[k];
                    let w = choose|w: Seq<int>| crate::graph::is_walk(g, w) && w[0] == i && w.last() == k;
                    assert(0 <= w[w.len() - 1] < g.len());
                }
            }
        }
        r.push(col);
        j = j + 1;
    }
    r
}

/// Each planned build, in name order, with its dependencies.
fn dependency_lists(
    p: &Project,
    c: &BuildCache,
    rebuild: bool,
    reach: &Vec<Vec<bool>>,
    dirty: &Vec<bool>,
) -> (r: Vec<(String, Vec<String>)>)
    requires
        names_unique(p@),
        reach@.len() == p@.builds.len(),
        forall|j: int, i: int|
            0 <= j < p@.builds.len() && 0 <= i < p@.builds.len() ==> (#[trigger] reach@[j]@[i] <==> reaches(project_graph(p@), i, j)),
        forall|j: int| 0 <= j < p@.builds.len() ==> (#[trigger] reach@[j])@.len() == p@.builds.len(),
        dirty@ == planned_mask(p@, *c, rebuild),
    ensures
        selects_builds(p@, planned_mask(p@, *c, rebuild), r@.map_values(|e: (String, Vec<String>)| e.0@)),
        forall|k: int| 0 <= k < r@.len() ==> #[trigger] deps_entry_ok(p@, *c, rebuild, r@[k]),
{
    let n = p.builds.len();
    let bnames = build_names(p);
    let bchars = names_chars(&bnames);
    assert forall|i: int, j: int| 0 <= i < j < bchars@.len() implies bchars@[i]@ != bchars@[j]@ by {
        assert(bchars@[i]@ == p@.builds[i].1.name@);
        assert(bchars@[j]@ == p@.builds[j].1.name@);
    }
    let order = sort_by_name(&bchars);
    assert forall|x: int, y: int| 0 <= x < y < order@.len() implies lex_lt(
        p@.builds[order@[x] as int].1.name@,
        p@.builds[order@[y] as int].1.name@,
    ) by {
        assert(bchars@[order@[x] as int]@ == p@.builds[order@[x] as int].1.name@);
        assert(bchars@[order@[y] as int]@ == p@.builds[order@[y] as int].1.name@);
    }
    let heads = select_builds(p, &order, dirty);
    let mut r: Vec<(String, Vec<String>)> = Vec::new();
    let mut k: usize = 0;
    while k < heads.len()
        invariant
            0 <= k <= heads@.len(),
            n == p@.builds.len(),
            names_unique(p@),
            reach@.len() == n,
            forall|j: int, i: int|
                0 <= j < n && 0 <= i < n ==> (#[trigger] reach@[j]@[i] <==> reaches(project_graph(p@), i, j)),
            forall|j: int| 0 <= j < n ==> (#[trigger] reach@[j])@.len() == n,
            dirty@ == planned_mask(p@, *c, rebuild),
            selects_builds(p@, dirty@, strings_view(heads@)),
            order@.len() == n,
            forall|q: int| 0 <= q < order@.len() ==> (#[trigger] order@[q]) < n,
            forall|i: int| 0 <= i < n ==> #[trigger] order@.contains(i as usize),
            forall|x: int, y: int|
                0 <= x < y < order@.len() ==> lex_lt(
                    p@.builds[order@[x] as int].1.name@,
                    p@.builds[order@[y] as int].1.name@,
                ),
            r@.len() == k,
            forall|q: int| 0 <= q < k ==> (#[trigger] r@[q]).0@ == heads@[q]@,
            forall|q: int| 0 <= q < k ==> #[trigger] deps_entry_ok(p@, *c, rebuild, r@[q]),
        decreases heads@.len() - k,
    {
        let i = match find_build(p, &heads[k]) {
            Some(i) => i,
            None => {
                // never taken: every listed name is that of a build
                proof {
                    assert(strings_view(heads@)[k as int] == heads@[k as int]@);
                    assert(crate::plan::selected_build(p@, dirty@, strings_view(heads@)[k as int]));
                }
                return r;
            },
        };
        let mut mask: Vec<bool> = Vec::new();
        let mut j: usize = 0;
        while j < n
            invariant
                0 <= j <= n,
                i < n,
                n == p@.builds.len(),
                reach@.len() == n,
                forall|j2: int, i2: int|
                    0 <= j2 < n && 0 <= i2 < n ==> (#[trigger] reach@[j2]@[i2] <==> reaches(project_graph(p@), i2, j2)),
                forall|j2: int| 0 <= j2 < n ==> (#[trigger] reach@[j2])@.len() == n,
                dirty@ == planned_mask(p@, *c, rebuild),
                mask@.len() == j,
                forall|q: int| 0 <= q < j ==> mask@[q] == deps_mask(p@, i as int)[q],
            decreases n - j,
        {
            mask.push(j != i && reach[j][i]);
            j = j + 1;
        }
        assert(mask@ =~= deps_mask(p@, i as int));
        let deps = select_builds(p, &order, &mask);
        let ghost entry = (heads@[k as int], deps);
        r.push((heads[k].clone(), deps));
        proof {
            assert(p@.builds[i as int].1.name@ == r@[k as int].0@);
            assert(deps_entry_ok(p@, *c, rebuild, r@[k as int]));
        }
        k = k + 1;
    }
    proof {
        assert(r@.map_values(|e: (String, Vec<String>)| e.0@) =~= strings_view(heads@));
    }
    r
}

/// Which builds are planned: those that some dirty build reaches.
fn compute_planned(
    p: &Project,
    c: &BuildCache,
    rebuild: bool,
    reach: &Vec<Vec<bool>>,
    dirty: &Vec<bool>,
) -> (r: Vec<bool>)
    requires
        reach@.len() == p@.builds.len(),
        forall|j: int, i: int|
            0 <= j < p@.builds.len() && 0 <= i < p@.builds.len() ==> (#[trigger] reach@[j]@[i] <==> reaches(project_graph(p@), i, j)),
        forall|j: int| 0 <= j < p@.builds.len() ==> (#[trigger] reach@[j])@.len() == p@.builds.len(),
        dirty@ == dirty_mask(p@, *c, rebuild),
    ensures
        r@ == planned_mask(p@, *c, rebuild),
{
    let n = p.builds.len();
    let mut r: Vec<bool> = Vec::new();
    let mut j: usize = 0;
    while j < n
        invariant
            0 <= j <= n,
            n == p@.builds.len(),
            reach@.len() == n,
            forall|j2: int, i: int|
                0 <= j2 < n && 0 <= i < n ==> (#[trigger] reach@[j2]@[i] <==> reaches(project_graph(p@), i, j2)),
            forall|j2: int| 0 <= j2 < n ==> (#[trigger] reach@[j2])@.len() == n,
            dirty@ == dirty_mask(p@, *c, rebuild),
            r@.len() == j,
            forall|q: int| 0 <= q < j ==> r@[q] == is_planned(p@, *c, rebuild, q),
        decreases n - j,
    {
        let mut found = false;
        let mut d: usize = 0;
        while d < n
            invariant
                0 <= d <= n,
                j < n,
                n == p@.builds.len(),
                reach@.len() == n,
                forall|j2: int, i: int|
                    0 <= j2 < n && 0 <= i < n ==> (#[trigger] reach@[j2]@[i] <==> reaches(project_graph(p@), i, j2)),
                forall|j2: int| 0 <= j2 < n ==> (#[trigger] reach@[j2])@.len() == n,
                dirty@ == dirty_mask(p@, *c, rebuild),
                found == exists|e: int| 0 <= e < d && #[trigger] is_dirty(p@, *c, rebuild, e) && reaches(project_graph(p@), e, j as int),
            decreases n - d,
        {
            if dirty[d] && reach[j][d] {
                found = true;
            }
            proof {
                if dirty@[d as int] && reach@[j as int]@[d as int] {
                    assert(is_dirty(p@, *c, rebuild, d as int));
                }
            }
            d = d + 1;
        }
        r.push(found);
        j = j + 1;
    }
    assert(r@ =~= planned_mask(p@, *c, rebuild));
    r
}

/// What a plan under `layers` says of the planned builds and of the deploys.
pub proof fn lemma_plan_parts(
    p: ProjectView,
    c: BuildCache,
    rebuild: bool,
    layers: Seq<Seq<usize>>,
    plan: OrderedDependencyGraph,
)
    requires
        plan_matches(p, c, rebuild, layers, plan),
    ensures
        layering_ok(project_graph(p), planned_mask(p, c, rebuild), layers),
        plan.layers@.len() == layers.len(),
        selects_deploys(
            p,
            Seq::new(p.deploys.len(), |d: int| deploy_dirty(p, c, rebuild, d)),
            strings_view(plan.deploys@),
        ),
        selects_builds(p, planned_mask(p, c, rebuild), plan.artifact_deps@.map_values(|e: (String, Vec<String>)| e.0@)),
{
    reveal(plan_matches);
}

/// `plan` is a plan for the planned builds and dirty deploys, under some layering.
pub open spec fn plan_ok(p: ProjectView, c: BuildCache, rebuild: bool, plan: OrderedDependencyGraph) -> bool {
    exists|layers: Seq<Seq<usize>>| plan_matches(p, c, rebuild, layers, plan)
}

/// Which builds are dirty.
fn compute_dirty(
    p: &Project,
    c: &BuildCache,
    rebuild: bool,
    adj: &Vec<Vec<usize>>,
    order_layers: &Vec<Vec<usize>>,
) -> (r: Vec<bool>)
    requires
        names_unique(p@),
        project_valid(p@),
        adj_view(adj@) == project_graph(p@),
        graph_wf(project_graph(p@)),
        project_graph(p@).len() == p@.builds.len(),
        layering_ok(project_graph(p@), all_members(p@.builds.len() as int), layers_view(order_layers@)),
    ensures
        r@ == dirty_mask(p@, *c, rebuild),
{
    let idig = import_digests(p);
    let fdig = function_digests(p);
    let bdig = build_digests(p);
    let bad = bad_builds(p, c, &idig, &fdig, &bdig, rebuild);
    assert(all_members(p@.builds.len() as int) =~= Seq::new(adj@.len(), |i: int| true));
    let dirty = propagate(adj, order_layers, &bad);
    assert(dirty@ =~= dirty_mask(p@, *c, rebuild));
    dirty
}

/// The layering of the builds that `dirty` marks; the graph has no cycle, so there is one.
fn layer_dirty(adj: &Vec<Vec<usize>>, dirty: &Vec<bool>) -> (r: Vec<Vec<usize>>)
    requires
        graph_wf(adj_view(adj@)),
        acyclic(adj_view(adj@)),
        dirty@.len() == adj@.len(),
    ensures
        layering_ok(adj_view(adj@), dirty@, layers_view(r@)),
{
    match layer_nodes(adj, dirty) {
        Ok(l) => l,
        Err(cyc) => {
            // never taken: a cycle among the dirty builds would be one of the graph
            proof {
                assert(is_cycle(adj_view(adj@), to_ints(cyc@)));
            }
            Vec::new()
        },
    }
}

/// The plan for a project whose builds have no cycle; the cache then records the
/// current digests.
fn plan_and_record(
    p: &Project,
    c: &mut BuildCache,
    rebuild: bool,
    adj: &Vec<Vec<usize>>,
    order_layers: &Vec<Vec<usize>>,
) -> (plan: OrderedDependencyGraph)
    requires
        names_unique(p@),
        project_valid(p@),
        adj_view(adj@) == project_graph(p@),
        graph_wf(project_graph(p@)),
        project_graph(p@).len() == p@.builds.len(),
        acyclic(project_graph(p@)),
        layering_ok(project_graph(p@), all_members(p@.builds.len() as int), layers_view(order_layers@)),
    ensures
        cache_recorded(p@, *old(c), *final(c)),
        plan_ok(p@, *old(c), rebuild, plan),
{
    let ghost c0 = *c;
    let dirty = compute_dirty(p, c, rebuild, adj, order_layers);
    let reach = reach_table(adj, order_layers);
    let planned = compute_planned(p, c, rebuild, &reach, &dirty);
    let artifact_deps = dependency_lists(p, c, rebuild, &reach, &planned);
    let plan_layers = layer_dirty(adj, &planned);
    let layers = name_layers(p, &plan_layers);
    let ddig = deploy_digests(p);
    let dmask = dirty_deploys(p, c, &ddig, &dirty, rebuild);
    let deploys = name_deploys(p, &dmask);
    let idig = import_digests(p);
    let fdig = function_digests(p);
    let bdig = build_digests(p);
    record_digests(p, c, &idig, &fdig, &bdig, &ddig);
    let plan = OrderedDependencyGraph { layers, artifact_deps, deploys };
    proof {
        reveal(plan_matches);
        assert(plan_matches(p@, c0, rebuild, layers_view(plan_layers@), plan));
    }
    plan
}

/// Reconciles a valid project with the cache: finds the dirty builds and deploys
/// (all of them when `rebuild` is set), lays the dirty builds and every build they
/// depend on out in layers, and writes every record's current digest into the
/// cache. A cycle among the builds is an error that names the simple cycle through
/// them, from its earliest build; it leaves the cache as it was.
pub fn update_cache_with(project: &Project, build_cache: &mut BuildCache, rebuild: bool) -> (r: ORResult<OrderedDependencyGraph>)
    requires
        names_unique(project@),
        project_valid(project@),
    ensures
        r is Err <==> !acyclic(project_graph(project@)),
        r is Err ==> *final(build_cache) == *old(build_cache) && exists|w: Seq<int>|
            #[trigger] earliest_simple_cycle(project@, w) && r->Err_0@ == ErrorView::CircularDependency(
                cycle_text(project@, w),
            ),
        r is Ok ==> cache_recorded(project@, *old(build_cache), *final(build_cache)) && plan_ok(
            project@,
            *old(build_cache),
            rebuild,
            r->Ok_0,
        ),
{
    let p = project;
    let n = p.builds.len();
    proof {
        lemma_project_graph(p@);
    }
    let adj = build_graph(p);
    let all = all_true(n);
    match layer_nodes(&adj, &all) {
        Ok(order_layers) => {
            proof {
                lemma_layered_acyclic(project_graph(p@), layers_view(order_layers@));
            }
            Ok(plan_and_record(p, build_cache, rebuild, &adj, &order_layers))
        },
        Err(cyc) => Err(cycle_error(p, &adj, &cyc)),
    }
}

} // verus!

verus! {

/// Reconciles a valid project with the cache, rebuilding only what changed.
pub fn update_cache(project: &Project, build_cache: &mut BuildCache) -> (r: ORResult<OrderedDependencyGraph>)
    requires
        names_unique(project@),
        project_valid(project@),
    ensures
        r is Err <==> !acyclic(project_graph(project@)),
        r is Err ==> *final(build_cache) == *old(build_cache) && exists|w: Seq<int>|
            #[trigger] earliest_simple_cycle(project@, w) && r->Err_0@ == ErrorView::CircularDependency(
                cycle_text(project@, w),
            ),
        r is Ok ==> cache_recorded(project@, *old(build_cache), *final(build_cache)) && plan_ok(
            project@,
            *old(build_cache),
            false,
            r->Ok_0,
        ),
{
    update_cache_with(project, build_cache, false)
}

} // verus!
