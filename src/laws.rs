//! Properties of the planner that hold across calls and of every plan.
use crate::cache::BuildCache;
use crate::graph::{acyclic, edge, in_layer, is_walk, member_edge, reaches};
use crate::plan::{
    bad_mask, build_digest_spec, build_keys, cache_recorded, deploy_digest_spec, deploy_dirty,
    deploy_keys, env_clean, is_planned, lemma_plan_parts, planned_mask, function_clean, function_digest_spec, function_keys,
    import_digest_spec, import_keys, is_dirty, is_first_import, locally_clean, p_edge, plan_matches,
    plan_ok, plugin_clean, project_graph, recorded, selected_deploy, OrderedDependencyGraph,
};
use crate::project::{names_unique, ProjectView};
use crate::text::slash_prefix;
use crate::validate::{
    has_import, lemma_first_error_none, lemma_valid_env, project_valid, step_rule,
    with_crumb,
};
use vstd::prelude::*;

verus! {

/// Every record of the project can be hashed (its encoding is not too long).
pub open spec fn all_digestible(p: ProjectView) -> bool {
    &&& forall|i: int| 0 <= i < p.imports.len() ==> import_digest_spec((#[trigger] p.imports[i]).1) is Some
    &&& forall|i: int| 0 <= i < p.functions.len() ==> function_digest_spec((#[trigger] p.functions[i]).1) is Some
    &&& forall|i: int| 0 <= i < p.builds.len() ==> build_digest_spec((#[trigger] p.builds[i]).1) is Some
    &&& forall|i: int| 0 <= i < p.deploys.len() ==> deploy_digest_spec((#[trigger] p.deploys[i]).1) is Some
}

/// After writing a list of digests, a key written with a digest (and not written
/// again later) holds that digest.
pub proof fn lemma_recorded_at(
    old: Option<u64>,
    keys: Seq<(Seq<char>, Option<u64>)>,
    idx: int,
    q: Seq<char>,
)
    requires
        0 <= idx < keys.len(),
        keys[idx].0 == q,
        keys[idx].1 is Some,
        forall|j: int| idx < j < keys.len() ==> (#[trigger] keys[j]).0 != q || keys[j].1 is None,
    ensures
        recorded(old, keys, q) == keys[idx].1,
    decreases keys.len(),
{
    if idx < keys.len() - 1 {
        assert(keys.drop_last()[idx] == keys[idx]);
        assert forall|j: int| idx < j < keys.drop_last().len() implies (#[trigger] keys.drop_last()[j]).0 != q || keys.drop_last()[j].1 is None by {
            assert(keys.drop_last()[j] == keys[j]);
        }
        lemma_recorded_at(old, keys.drop_last(), idx, q);
    }
}

proof fn lemma_function_clean_after(p: ProjectView, c0: BuildCache, c1: BuildCache, name: Seq<char>)
    requires
        names_unique(p),
        all_digestible(p),
        cache_recorded(p, c0, c1),
        exists|k: int| 0 <= k < p.functions.len() && (#[trigger] p.functions[k]).1.name@ == name,
    ensures
        function_clean(p, c1, name),
{
    let k = choose|k: int| 0 <= k < p.functions.len() && (#[trigger] p.functions[k]).1.name@ == name;
    let keys = function_keys(p);
    assert(keys[k] == (name, function_digest_spec(p.functions[k].1)));
    assert forall|j: int| k < j < keys.len() implies (#[trigger] keys[j]).0 != name by {
        assert(keys[j].0 == p.functions[j].1.name@);
    }
    lemma_recorded_at(c0.fn_hashes.get_spec(name), keys, k, name);
    assert(c1.fn_hashes.get_spec(name) == recorded(c0.fn_hashes.get_spec(name), keys, name));
}

/// Where some import requires `name`, a first one does.
proof fn lemma_first_import_exists(p: ProjectView, name: Seq<char>, k: int)
    requires
        0 <= k < p.imports.len(),
        p.imports[k].1.require@ == name,
    ensures
        exists|f: int| is_first_import(p, name, f),
    decreases k,
{
    if exists|j: int| 0 <= j < k && (#[trigger] p.imports[j]).1.require@ == name {
        let j = choose|j: int| 0 <= j < k && (#[trigger] p.imports[j]).1.require@ == name;
        lemma_first_import_exists(p, name, j);
    } else {
        assert(is_first_import(p, name, k));
    }
}

proof fn lemma_plugin_clean_after(p: ProjectView, c0: BuildCache, c1: BuildCache, name: Seq<char>)
    requires
        all_digestible(p),
        cache_recorded(p, c0, c1),
        has_import(p, name),
    ensures
        plugin_clean(p, c1, name),
{
    let k0 = choose|k: int| 0 <= k < p.imports.len() && (#[trigger] p.imports[k]).1.require@ == name;
    lemma_first_import_exists(p, name, k0);
    let k = choose|f: int| is_first_import(p, name, f);
    let keys = import_keys(p);
    assert(keys[k] == (name, import_digest_spec(p.imports[k].1)));
    assert forall|j: int| k < j < keys.len() implies (#[trigger] keys[j]).0 != name || keys[j].1 is None by {
        assert(keys[j].0 == p.imports[j].1.require@);
        if keys[j].0 == name {
            assert(!is_first_import(p, name, j)) by {
                assert(p.imports[k].1.require@ == name);
            }
        }
    }
    lemma_recorded_at(c0.import_hashes.get_spec(name), keys, k, name);
    assert(c1.import_hashes.get_spec(name) == recorded(c0.import_hashes.get_spec(name), keys, name));
    assert(is_first_import(p, name, k));
}

proof fn lemma_env_clean_after(p: ProjectView, c0: BuildCache, c1: BuildCache, b: int, e: int)
    requires
        names_unique(p),
        project_valid(p),
        all_digestible(p),
        cache_recorded(p, c0, c1),
        0 <= b < p.builds.len(),
        0 <= e < p.builds[b].1.envs@.len(),
    ensures
        env_clean(p, c1, p.builds[b].1.envs@[e]),
{
    let env = p.builds[b].1.envs@[e];
    lemma_valid_env(p, b, e);
    lemma_plugin_clean_after(p, c0, c1, slash_prefix(env.name@));
    let l = with_crumb(p.builds[b].0, env.name@);
    assert forall|s: int|
        0 <= s < env.steps@.len() && (#[trigger] env.steps@[s]) is InvokeFunctionStep implies function_clean(
            p,
            c1,
            env.steps@[s]->InvokeFunctionStep_0.invoke_fn@,
        ) by {
        lemma_first_error_none(env.steps@, step_rule(p, l), s);
        lemma_function_clean_after(p, c0, c1, env.steps@[s]->InvokeFunctionStep_0.invoke_fn@);
    }
}

proof fn lemma_locally_clean_after(p: ProjectView, c0: BuildCache, c1: BuildCache, i: int)
    requires
        names_unique(p),
        project_valid(p),
        all_digestible(p),
        cache_recorded(p, c0, c1),
        0 <= i < p.builds.len(),
    ensures
        locally_clean(p, c1, i),
{
    let name = p.builds[i].1.name@;
    let keys = build_keys(p);
    assert(keys[i] == (name, build_digest_spec(p.builds[i].1)));
    assert forall|j: int| i < j < keys.len() implies (#[trigger] keys[j]).0 != name by {
        assert(keys[j].0 == p.builds[j].1.name@);
    }
    lemma_recorded_at(c0.build_hashes.get_spec(name), keys, i, name);
    assert(c1.build_hashes.get_spec(name) == recorded(c0.build_hashes.get_spec(name), keys, name));
    assert forall|e: int| 0 <= e < p.builds[i].1.envs@.len() implies env_clean(p, c1, #[trigger] p.builds[i].1.envs@[e]) by {
        lemma_env_clean_after(p, c0, c1, i, e);
    }
}

/// Running the planner again right after it recorded its digests finds nothing to
/// do: no layer and no deploy.
pub proof fn lemma_second_run_clean(
    p: ProjectView,
    c0: BuildCache,
    c1: BuildCache,
    plan: OrderedDependencyGraph,
)
    requires
        names_unique(p),
        project_valid(p),
        all_digestible(p),
        cache_recorded(p, c0, c1),
        plan_ok(p, c1, false, plan),
    ensures
        plan.layers@.len() == 0,
        plan.artifact_deps@.len() == 0,
        plan.deploys@.len() == 0,
{
    let layers = choose|layers: Seq<Seq<usize>>| plan_matches(p, c1, false, layers, plan);
    lemma_plan_parts(p, c1, false, layers, plan);
    let g = project_graph(p);
    assert forall|i: int| 0 <= i < p.builds.len() implies !is_dirty(p, c1, false, i) by {
        if is_dirty(p, c1, false, i) {
            let j = choose|j: int| reaches(g, i, j) && bad_mask(p, c1, false)[j];
            let w = choose|w: Seq<int>| is_walk(g, w) && w[0] == i && w.last() == j;
            assert(0 <= w[w.len() - 1] < g.len());
            lemma_locally_clean_after(p, c0, c1, j);
        }
    }
    if layers.len() > 0 {
        assert(layers[0].len() > 0);
        assert(layers[0][0] < g.len());
        assert(planned_mask(p, c1, false)[layers[0][0] as int]);
    }
    let dmask = Seq::new(p.deploys.len(), |d: int| deploy_dirty(p, c1, false, d));
    assert forall|d: int| 0 <= d < p.deploys.len() implies !deploy_dirty(p, c1, false, d) by {
        let name = p.deploys[d].1.name@;
        let keys = deploy_keys(p);
        assert(keys[d] == (name, deploy_digest_spec(p.deploys[d].1)));
        assert forall|j: int| d < j < keys.len() implies (#[trigger] keys[j]).0 != name by {
            assert(keys[j].0 == p.deploys[j].1.name@);
        }
        lemma_recorded_at(c0.deploy_hashes.get_spec(name), keys, d, name);
        assert(c1.deploy_hashes.get_spec(name) == recorded(c0.deploy_hashes.get_spec(name), keys, name));
    }
    let out = plan.deploys@.map_values(|s: String| s@);
    if out.len() > 0 {
        assert(selected_deploy(p, dmask, out[0]));
    }
    let heads = plan.artifact_deps@.map_values(|e: (String, Vec<String>)| e.0@);
    if heads.len() > 0 {
        assert(crate::plan::selected_build(p, planned_mask(p, c1, false), heads[0]));
    }
}

} // verus!

verus! {

/// A build that a planned build depends on is planned too.
pub proof fn lemma_planned_closed(p: ProjectView, c: BuildCache, rebuild: bool, x: int, y: int)
    requires
        is_planned(p, c, rebuild, x),
        edge(project_graph(p), x, y),
    ensures
        is_planned(p, c, rebuild, y),
{
    let g = project_graph(p);
    let d = choose|d: int| 0 <= d < p.builds.len() && #[trigger] is_dirty(p, c, rebuild, d) && reaches(g, d, x);
    let w = choose|w: Seq<int>| is_walk(g, w) && w[0] == d && w.last() == x;
    let w2 = w.push(y);
    assert(is_walk(g, w2)) by {
        assert forall|k: int| 0 <= k < w2.len() - 1 implies edge(g, #[trigger] w2[k], w2[k + 1]) by {
            if k < w.len() - 1 {
                assert(w2[k] == w[k] && w2[k + 1] == w[k + 1]);
            }
        }
        assert forall|k: int| 0 <= k < w2.len() implies 0 <= #[trigger] w2[k] < g.len() by {
            if k < w.len() {
                assert(w2[k] == w[k]);
            }
        }
    }
    assert(w2[0] == d && w2.last() == y);
    assert(reaches(g, d, y));
}

/// Within a plan, every dependency between two planned builds points to a strictly
/// earlier layer.
pub proof fn lemma_layers_point_back(
    p: ProjectView,
    c: BuildCache,
    rebuild: bool,
    layers: Seq<Seq<usize>>,
    plan: OrderedDependencyGraph,
    i: int,
    j: int,
    a: int,
    b: int,
)
    requires
        p.builds.len() <= usize::MAX,
        plan_matches(p, c, rebuild, layers, plan),
        p_edge(p, i, j),
        in_layer(layers, a, i),
        in_layer(layers, b, j),
    ensures
        b < a,
{
    crate::plan::lemma_project_graph(p);
    lemma_plan_parts(p, c, rebuild, layers, plan);
    let m = planned_mask(p, c, rebuild);
    let ki = choose|k: int| 0 <= k < layers[a].len() && #[trigger] layers[a][k] as int == i;
    let kj = choose|k: int| 0 <= k < layers[b].len() && #[trigger] layers[b][k] as int == j;
    assert(m[layers[a][ki] as int] && m[layers[b][kj] as int]);
    assert(member_edge(project_graph(p), m, i, j));
}

/// Along a walk that starts at a planned build, every build is planned, and the
/// last one sits in a strictly earlier layer than the first.
pub proof fn lemma_planned_walk(
    p: ProjectView,
    c: BuildCache,
    rebuild: bool,
    layers: Seq<Seq<usize>>,
    plan: OrderedDependencyGraph,
    w: Seq<int>,
)
    requires
        p.builds.len() <= usize::MAX,
        plan_matches(p, c, rebuild, layers, plan),
        is_walk(project_graph(p), w),
        w.len() >= 2,
        is_planned(p, c, rebuild, w[0]),
    ensures
        is_planned(p, c, rebuild, w.last()),
        exists|a: int, b: int| in_layer(layers, a, w[0]) && in_layer(layers, b, w.last()) && b < a,
    decreases w.len(),
{
    let g = project_graph(p);
    let m = planned_mask(p, c, rebuild);
    crate::plan::lemma_project_graph(p);
    lemma_plan_parts(p, c, rebuild, layers, plan);
    let w1 = w.drop_first();
    assert(is_walk(g, w1)) by {
        assert forall|k: int| 0 <= k < w1.len() - 1 implies edge(g, #[trigger] w1[k], w1[k + 1]) by {
            assert(w1[k] == w[k + 1]);
            assert(edge(g, w[k + 1], w[k + 2]));
        }
        assert forall|k: int| 0 <= k < w1.len() implies 0 <= #[trigger] w1[k] < g.len() by {
            assert(w1[k] == w[k + 1]);
        }
    }
    assert(edge(g, w[0], w[1]));
    lemma_planned_closed(p, c, rebuild, w[0], w[1]);
    assert(m[w[0]] && m[w[1]]);
    assert(member_edge(g, m, w[0], w[1]));
    let a = choose|a: int| in_layer(layers, a, w[0]);
    let b1 = choose|b: int| in_layer(layers, b, w[1]);
    assert(b1 < a);
    if w.len() > 2 {
        lemma_planned_walk(p, c, rebuild, layers, plan, w1);
        let (a2, b2) = choose|a2: int, b2: int| in_layer(layers, a2, w1[0]) && in_layer(layers, b2, w1.last()) && b2 < a2;
        assert(a2 == b1);
        assert(in_layer(layers, b2, w.last()));
    } else {
        assert(in_layer(layers, b1, w.last()));
    }
}

/// With a rebuild asked for, every build and every deploy is dirty.
pub proof fn lemma_rebuild_all_dirty(p: ProjectView, c: BuildCache)
    ensures
        forall|i: int| 0 <= i < p.builds.len() ==> #[trigger] is_dirty(p, c, true, i),
        forall|d: int| 0 <= d < p.deploys.len() ==> #[trigger] deploy_dirty(p, c, true, d),
{
    let g = project_graph(p);
    assert forall|i: int| 0 <= i < p.builds.len() implies #[trigger] is_dirty(p, c, true, i) by {
        let w = seq![i];
        assert(is_walk(g, w));
        assert(w[0] == i && w.last() == i);
        assert(reaches(g, i, i));
        assert(bad_mask(p, c, true)[i]);
    }
}

/// An empty project plans nothing and fails with no error: it has no cycle, its
/// plan has no layer, no dependency list and no deploy, and the cache keeps every
/// entry it had.
pub proof fn lemma_empty_project(
    p: ProjectView,
    c0: BuildCache,
    c1: BuildCache,
    rebuild: bool,
    plan: OrderedDependencyGraph,
)
    requires
        p.imports.len() == 0,
        p.functions.len() == 0,
        p.builds.len() == 0,
        p.deploys.len() == 0,
    ensures
        acyclic(project_graph(p)),
        plan_ok(p, c0, rebuild, plan) ==> plan.layers@.len() == 0 && plan.artifact_deps@.len() == 0
            && plan.deploys@.len() == 0,
        cache_recorded(p, c0, c1) ==> forall|q: Seq<char>|
            c1.import_hashes.get_spec(q) == c0.import_hashes.get_spec(q) && c1.fn_hashes.get_spec(q)
                == c0.fn_hashes.get_spec(q) && c1.build_hashes.get_spec(q) == c0.build_hashes.get_spec(q)
                && #[trigger] c1.deploy_hashes.get_spec(q) == c0.deploy_hashes.get_spec(q),
{
    let g = project_graph(p);
    assert forall|w: Seq<int>| !crate::graph::is_cycle(g, w) by {
        if crate::graph::is_cycle(g, w) {
            assert(0 <= w[0] < g.len());
        }
    }
    if plan_ok(p, c0, rebuild, plan) {
        let layers = choose|layers: Seq<Seq<usize>>| plan_matches(p, c0, rebuild, layers, plan);
        lemma_plan_parts(p, c0, rebuild, layers, plan);
        if layers.len() > 0 {
            assert(layers[0].len() > 0);
            assert(layers[0][0] < g.len());
        }
        let dmask = Seq::new(p.deploys.len(), |d: int| deploy_dirty(p, c0, rebuild, d));
        let out = plan.deploys@.map_values(|s: String| s@);
        if out.len() > 0 {
            assert(selected_deploy(p, dmask, out[0]));
        }
        let heads = plan.artifact_deps@.map_values(|e: (String, Vec<String>)| e.0@);
        if heads.len() > 0 {
            assert(crate::plan::selected_build(p, planned_mask(p, c0, rebuild), heads[0]));
        }
    }
    if cache_recorded(p, c0, c1) {
        assert(import_keys(p) =~= Seq::<(Seq<char>, Option<u64>)>::empty());
        assert(function_keys(p) =~= Seq::<(Seq<char>, Option<u64>)>::empty());
        assert(build_keys(p) =~= Seq::<(Seq<char>, Option<u64>)>::empty());
        assert(deploy_keys(p) =~= Seq::<(Seq<char>, Option<u64>)>::empty());
    }
}

} // verus!

verus! {

/// Every dirty build is planned, and so is every build it depends on, directly
/// or through others; each of those sits in a strictly earlier layer than it.
pub proof fn lemma_dirty_ancestors_planned(
    p: ProjectView,
    c: BuildCache,
    rebuild: bool,
    layers: Seq<Seq<usize>>,
    plan: OrderedDependencyGraph,
    i: int,
    j: int,
)
    requires
        p.builds.len() <= usize::MAX,
        plan_matches(p, c, rebuild, layers, plan),
        0 <= i < p.builds.len(),
        is_dirty(p, c, rebuild, i),
        reaches(project_graph(p), i, j),
    ensures
        exists|a: int| in_layer(layers, a, i),
        exists|b: int| in_layer(layers, b, j),
        i != j ==> exists|a: int, b: int| in_layer(layers, a, i) && in_layer(layers, b, j) && b < a,
{
    let g = project_graph(p);
    crate::plan::lemma_project_graph(p);
    lemma_plan_parts(p, c, rebuild, layers, plan);
    let w = choose|w: Seq<int>| is_walk(g, w) && w[0] == i && w.last() == j;
    assert(0 <= w[w.len() - 1] < g.len());
    assert(is_planned(p, c, rebuild, i)) by {
        let t = seq![i];
        assert(is_walk(g, t));
        assert(t[0] == i && t.last() == i);
        assert(reaches(g, i, i));
    }
    assert(is_planned(p, c, rebuild, j));
    if w.len() >= 2 {
        lemma_planned_walk(p, c, rebuild, layers, plan, w);
    }
    assert(planned_mask(p, c, rebuild)[i]);
    assert(planned_mask(p, c, rebuild)[j]);
}

} // verus!
