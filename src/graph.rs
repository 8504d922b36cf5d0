//! Dependency graphs over numbered nodes: layering, cycles and reachability.
use vstd::prelude::*;
use vstd::set_lib::{lemma_int_range, lemma_len_subset, set_int_range};

verus! {

/// `i` depends on `j`: `j` is among the successors of `i`.
pub open spec fn edge(g: Seq<Seq<usize>>, i: int, j: int) -> bool {
    0 <= i < g.len() && 0 <= j < g.len() && g[i].contains(j as usize)
}

/// Every successor names a node of the graph.
pub open spec fn graph_wf(g: Seq<Seq<usize>>) -> bool {
    forall|i: int, k: int| 0 <= i < g.len() && 0 <= k < g[i].len() ==> (#[trigger] g[i][k]) < g.len()
}

/// A walk along dependency edges.
pub open spec fn is_walk(g: Seq<Seq<usize>>, w: Seq<int>) -> bool {
    &&& w.len() >= 1
    &&& forall|k: int| 0 <= k < w.len() ==> 0 <= #[trigger] w[k] < g.len()
    &&& forall|k: int| 0 <= k < w.len() - 1 ==> edge(g, #[trigger] w[k], w[k + 1])
}

/// A walk that comes back to where it started.
pub open spec fn is_cycle(g: Seq<Seq<usize>>, w: Seq<int>) -> bool {
    is_walk(g, w) && w.len() >= 2 && w[0] == w.last()
}

pub open spec fn acyclic(g: Seq<Seq<usize>>) -> bool {
    forall|w: Seq<int>| !is_cycle(g, w)
}

/// `j` can be reached from `i` (in zero or more steps).
pub open spec fn reaches(g: Seq<Seq<usize>>, i: int, j: int) -> bool {
    exists|w: Seq<int>| is_walk(g, w) && w[0] == i && w.last() == j
}

/// A distinct sequence of numbers below `n` has at most `n` items.
pub proof fn lemma_distinct_bounded(s: Seq<usize>, n: nat)
    requires
        s.no_duplicates(),
        forall|k: int| 0 <= k < s.len() ==> (#[trigger] s[k]) < n,
    ensures
        s.len() <= n,
{
    let t = s.map_values(|x: usize| x as int);
    assert(t.no_duplicates()) by {
        assert forall|a: int, b: int| 0 <= a < t.len() && 0 <= b < t.len() && a != b implies t[a]
            != t[b] by {
            assert(s[a] != s[b]);
        }
    }
    t.unique_seq_to_set();
    lemma_int_range(0, n as int);
    assert(t.to_set().subset_of(set_int_range(0, n as int))) by {
        assert forall|x: int| t.to_set().contains(x) implies set_int_range(0, n as int).contains(x) by {
            let k = choose|k: int| 0 <= k < t.len() && t[k] == x;
            assert(s[k] < n);
        }
    }
    lemma_len_subset(t.to_set(), set_int_range(0, n as int));
}

/// Along a walk, a ranking that every edge lowers only goes down.
pub proof fn lemma_rank_decreases(g: Seq<Seq<usize>>, rank: spec_fn(int) -> int, w: Seq<int>)
    requires
        is_walk(g, w),
        forall|i: int, j: int| edge(g, i, j) ==> rank(j) < rank(i),
    ensures
        w.len() >= 2 ==> rank(w.last()) < rank(w[0]),
    decreases w.len(),
{
    if w.len() >= 3 {
        let v = w.drop_last();
        assert(is_walk(g, v));
        lemma_rank_decreases(g, rank, v);
        assert(edge(g, w[w.len() - 2], w[w.len() - 1]));
    } else if w.len() == 2 {
        assert(edge(g, w[0], w[1]));
    }
}

/// A graph with a ranking that every edge lowers has no cycle.
pub proof fn lemma_ranked_acyclic(g: Seq<Seq<usize>>, rank: spec_fn(int) -> int)
    requires
        forall|i: int, j: int| edge(g, i, j) ==> rank(j) < rank(i),
    ensures
        acyclic(g),
{
    assert forall|w: Seq<int>| !is_cycle(g, w) by {
        if is_cycle(g, w) {
            lemma_rank_decreases(g, rank, w);
        }
    }
}

} // verus!

verus! {

pub open spec fn adj_view(adj: Seq<Vec<usize>>) -> Seq<Seq<usize>> {
    adj.map_values(|v: Vec<usize>| v@)
}

/// An edge between two members.
pub open spec fn member_edge(g: Seq<Seq<usize>>, m: Seq<bool>, i: int, j: int) -> bool {
    edge(g, i, j) && m[i] && m[j]
}

/// Whether every member among `succ` already has a level.
pub fn deps_placed(succ: &Vec<usize>, member: &Vec<bool>, level: &Vec<Option<usize>>) -> (r: bool)
    requires
        forall|k: int| 0 <= k < succ@.len() ==> (#[trigger] succ@[k]) < member@.len(),
        member@.len() == level@.len(),
    ensures
        r == forall|k: int|
            0 <= k < succ@.len() && member@[#[trigger] succ@[k] as int] ==> level@[succ@[k] as int] is Some,
{
    let mut k: usize = 0;
    while k < succ.len()
        invariant
            0 <= k <= succ@.len(),
            forall|q: int| 0 <= q < succ@.len() ==> (#[trigger] succ@[q]) < member@.len(),
            member@.len() == level@.len(),
            forall|q: int|
                0 <= q < k && member@[#[trigger] succ@[q] as int] ==> level@[succ@[q] as int] is Some,
        decreases succ@.len() - k,
    {
        let j = succ[k];
        if member[j] && level[j].is_none() {
            return false;
        }
        k = k + 1;
    }
    true
}

/// A member successor of `i` that has no level yet, if there is one.
pub fn unplaced_dep(succ: &Vec<usize>, member: &Vec<bool>, level: &Vec<Option<usize>>) -> (r: Option<usize>)
    requires
        forall|k: int| 0 <= k < succ@.len() ==> (#[trigger] succ@[k]) < member@.len(),
        member@.len() == level@.len(),
    ensures
        r is Some ==> succ@.contains(r->0) && member@[r->0 as int] && level@[r->0 as int] is None,
        r is None ==> forall|k: int|
            0 <= k < succ@.len() && member@[#[trigger] succ@[k] as int] ==> level@[succ@[k] as int] is Some,
{
    let mut k: usize = 0;
    while k < succ.len()
        invariant
            0 <= k <= succ@.len(),
            forall|q: int| 0 <= q < succ@.len() ==> (#[trigger] succ@[q]) < member@.len(),
            member@.len() == level@.len(),
            forall|q: int|
                0 <= q < k && member@[#[trigger] succ@[q] as int] ==> level@[succ@[q] as int] is Some,
        decreases succ@.len() - k,
    {
        let j = succ[k];
        if member[j] && level[j].is_none() {
            assert(succ@[k as int] == j);
            return Some(j);
        }
        k = k + 1;
    }
    None
}

} // verus!

verus! {

pub open spec fn to_ints(s: Seq<usize>) -> Seq<int> {
    s.map_values(|x: usize| x as int)
}

/// Every member without a level depends on another member without a level.
pub open spec fn stuck(g: Seq<Seq<usize>>, m: Seq<bool>, level: Seq<Option<usize>>) -> bool {
    forall|i: int|
        0 <= i < g.len() && m[i] && level[i] is None ==> exists|j: int|
            member_edge(g, m, i, j) && (#[trigger] level[j]) is None
}

/// The position of `x` in `s`, if it is there.
pub fn position(s: &Vec<usize>, x: usize) -> (r: Option<usize>)
    ensures
        r is Some ==> r->0 < s@.len() && s@[r->0 as int] == x,
        r is None ==> !s@.contains(x),
{
    let mut k: usize = 0;
    while k < s.len()
        invariant
            0 <= k <= s@.len(),
            forall|q: int| 0 <= q < k ==> s@[q] != x,
        decreases s@.len() - k,
    {
        if s[k] == x {
            return Some(k);
        }
        k = k + 1;
    }
    None
}

proof fn lemma_walk_push(g: Seq<Seq<usize>>, w: Seq<usize>, x: usize)
    requires
        is_walk(g, to_ints(w)),
        edge(g, w.last() as int, x as int),
    ensures
        is_walk(g, to_ints(w.push(x))),
{
    let wi = to_ints(w.push(x));
    let old_wi = to_ints(w);
    assert forall|t: int| 0 <= t < wi.len() - 1 implies edge(g, #[trigger] wi[t], wi[t + 1]) by {
        if t < wi.len() - 2 {
            assert(wi[t] == old_wi[t]);
            assert(wi[t + 1] == old_wi[t + 1]);
        }
    }
    assert forall|t: int| 0 <= t < wi.len() implies 0 <= #[trigger] wi[t] < g.len() by {
        if t < wi.len() - 1 {
            assert(wi[t] == old_wi[t]);
        }
    }
}

proof fn lemma_push_distinct(w: Seq<usize>, x: usize)
    requires
        w.no_duplicates(),
        !w.contains(x),
    ensures
        w.push(x).no_duplicates(),
{
    let v = w.push(x);
    assert forall|a: int, b: int| 0 <= a < v.len() && 0 <= b < v.len() && a != b implies v[a] != v[b] by {
        if a < w.len() && b < w.len() {
            assert(v[a] == w[a] && v[b] == w[b]);
        } else if a == w.len() {
            assert(v[b] == w[b]);
        } else {
            assert(v[a] == w[a]);
        }
    }
}

/// The cycle `walk[q..] + [nxt]`, where the walk ends with an edge back to `walk[q]`.
fn close_cycle(adj: &Vec<Vec<usize>>, walk: &Vec<usize>, q: usize, nxt: usize) -> (c: Vec<usize>)
    requires
        is_walk(adj_view(adj@), to_ints(walk@)),
        q < walk@.len(),
        walk@[q as int] == nxt,
        edge(adj_view(adj@), walk@.last() as int, nxt as int),
    ensures
        is_cycle(adj_view(adj@), to_ints(c@)),
        forall|k: int| 0 <= k < c@.len() ==> walk@.contains(#[trigger] c@[k]),
        c@.drop_last() == walk@.subrange(q as int, walk@.len() as int),
        walk@.no_duplicates() ==> c@.drop_last().no_duplicates(),
{
    let ghost g = adj_view(adj@);
    let mut cyc: Vec<usize> = Vec::new();
    let mut k = q;
    while k < walk.len()
        invariant
            q <= k <= walk@.len(),
            cyc@ == walk@.subrange(q as int, k as int),
        decreases walk@.len() - k,
    {
        cyc.push(walk[k]);
        proof {
            assert(walk@.subrange(q as int, k + 1) =~= walk@.subrange(q as int, k as int).push(
                walk@[k as int],
            ));
        }
        k = k + 1;
    }
    let ghost body = cyc@;
    proof {
        let bi = to_ints(body);
        let wi = to_ints(walk@);
        assert(is_walk(g, bi)) by {
            assert forall|t: int| 0 <= t < bi.len() - 1 implies edge(g, #[trigger] bi[t], bi[t + 1]) by {
                assert(bi[t] == wi[q + t]);
                assert(bi[t + 1] == wi[q + t + 1]);
            }
            assert forall|t: int| 0 <= t < bi.len() implies 0 <= #[trigger] bi[t] < g.len() by {
                assert(bi[t] == wi[q + t]);
            }
        }
        assert(body.last() == walk@.last());
        lemma_walk_push(g, body, nxt);
    }
    cyc.push(nxt);
    proof {
        assert(cyc@.drop_last() =~= body);
        if walk@.no_duplicates() {
            assert forall|a: int, b: int| 0 <= a < body.len() && 0 <= b < body.len() && a != b
                implies body[a] != body[b] by {
                assert(body[a] == walk@[q + a]);
                assert(body[b] == walk@[q + b]);
            }
        }
        assert forall|k: int| 0 <= k < cyc@.len() implies walk@.contains(#[trigger] cyc@[k]) by {
            if k < body.len() {
                assert(cyc@[k] == walk@[q + k]);
            } else {
                assert(cyc@[k] == walk@[q as int]);
            }
        }
    }
    cyc
}

/// Follows unplaced dependencies from `start` until a node repeats, and returns
/// the cycle that closes there.
pub fn find_cycle(
    adj: &Vec<Vec<usize>>,
    member: &Vec<bool>,
    level: &Vec<Option<usize>>,
    start: usize,
) -> (w: Vec<usize>)
    requires
        graph_wf(adj_view(adj@)),
        member@.len() == adj@.len(),
        level@.len() == adj@.len(),
        start < adj@.len(),
        member@[start as int],
        level@[start as int] is None,
        stuck(adj_view(adj@), member@, level@),
    ensures
        is_cycle(adj_view(adj@), to_ints(w@)),
        w@.drop_last().no_duplicates(),
        forall|k: int| 0 <= k < w@.len() ==> member@[#[trigger] w@[k] as int],
{
    let ghost g = adj_view(adj@);
    let n = adj.len();
    let mut walk: Vec<usize> = Vec::new();
    walk.push(start);
    loop
        invariant
            g == adj_view(adj@),
            n == adj@.len(),
            graph_wf(g),
            member@.len() == n,
            level@.len() == n,
            stuck(g, member@, level@),
            walk@.len() >= 1,
            walk@.no_duplicates(),
            is_walk(g, to_ints(walk@)),
            forall|k: int|
                0 <= k < walk@.len() ==> (#[trigger] walk@[k]) < n && member@[walk@[k] as int]
                    && level@[walk@[k] as int] is None,
        decreases n - walk@.len(),
    {
        proof {
            lemma_distinct_bounded(walk@, n as nat);
        }
        let v = walk[walk.len() - 1];
        proof {
            assert(g[v as int] == adj@[v as int]@);
        }
        let nxt = match unplaced_dep(&adj[v], member, level) {
            Some(j) => j,
            None => {
                // never taken: the walk's last node has a dependency without a level
                proof {
                    let j = choose|j: int|
                        member_edge(g, member@, v as int, j) && (#[trigger] level@[j]) is None;
                    let k = choose|k: int|
                        0 <= k < adj@[v as int]@.len() && adj@[v as int]@[k] == j as usize;
                    assert(member@[adj@[v as int]@[k] as int]);
                }
                return walk;
            },
        };
        proof {
            assert(edge(g, v as int, nxt as int));
        }
        match position(&walk, nxt) {
            Some(q) => {
                let c = close_cycle(adj, &walk, q, nxt);
                return c;
            },
            None => {
                proof {
                    lemma_walk_push(g, walk@, nxt);
                    lemma_push_distinct(walk@, nxt);
                }
                walk.push(nxt);
                proof {
                    lemma_distinct_bounded(walk@, n as nat);
                }
            },
        }
    }
}

} // verus!

verus! {

/// A member without a level, all of whose member dependencies have one.
pub open spec fn ready(g: Seq<Seq<usize>>, m: Seq<bool>, level: Seq<Option<usize>>, i: int) -> bool {
    &&& 0 <= i < g.len()
    &&& m[i]
    &&& level[i] is None
    &&& forall|j: int| member_edge(g, m, i, j) ==> (#[trigger] level[j]) is Some
}

/// The ready nodes, in increasing order.
fn next_layer(adj: &Vec<Vec<usize>>, member: &Vec<bool>, level: &Vec<Option<usize>>) -> (r: Vec<usize>)
    requires
        graph_wf(adj_view(adj@)),
        member@.len() == adj@.len(),
        level@.len() == adj@.len(),
    ensures
        forall|k: int| 0 <= k < r@.len() ==> ready(adj_view(adj@), member@, level@, #[trigger] r@[k] as int),
        forall|i: int| ready(adj_view(adj@), member@, level@, i) ==> r@.contains(i as usize),
        forall|a: int, b: int| 0 <= a < b < r@.len() ==> r@[a] < r@[b],
{
    let ghost g = adj_view(adj@);
    let mut r: Vec<usize> = Vec::new();
    let mut i: usize = 0;
    while i < adj.len()
        invariant
            g == adj_view(adj@),
            graph_wf(g),
            member@.len() == adj@.len(),
            level@.len() == adj@.len(),
            0 <= i <= adj@.len(),
            forall|k: int| 0 <= k < r@.len() ==> ready(g, member@, level@, #[trigger] r@[k] as int) && r@[k] < i,
            forall|x: int| 0 <= x < i && ready(g, member@, level@, x) ==> r@.contains(x as usize),
            forall|a: int, b: int| 0 <= a < b < r@.len() ==> r@[a] < r@[b],
        decreases adj@.len() - i,
    {
        if member[i] && level[i].is_none() {
            proof {
                assert(g[i as int] == adj@[i as int]@);
            }
            if deps_placed(&adj[i], member, level) {
                proof {
                    assert forall|j: int| member_edge(g, member@, i as int, j) implies (#[trigger] level@[j]) is Some by {
                        let k = choose|k: int| 0 <= k < adj@[i as int]@.len() && adj@[i as int]@[k] == j as usize;
                        assert(member@[adj@[i as int]@[k] as int]);
                    }
                }
                let ghost before = r@;
                r.push(i);
                proof {
                    assert forall|x: int| 0 <= x < i + 1 && ready(g, member@, level@, x) implies r@.contains(x as usize) by {
                        if x < i {
                            let k = choose|k: int| 0 <= k < before.len() && before[k] == x as usize;
                            assert(r@[k] == x as usize);
                        } else {
                            assert(r@[before.len() as int] == i);
                        }
                    }
                }
            } else {
                proof {
                    let k = choose|k: int| 0 <= k < adj@[i as int]@.len() && member@[adj@[i as int]@[k] as int] && !(level@[adj@[i as int]@[k] as int] is Some);
                    let j = adj@[i as int]@[k] as int;
                    assert(member_edge(g, member@, i as int, j));
                }
            }
        }
        i = i + 1;
    }
    r
}

} // verus!

verus! {

/// Node `i` sits in layer `a`.
pub open spec fn in_layer(layers: Seq<Seq<usize>>, a: int, i: int) -> bool {
    0 <= a < layers.len() && exists|k: int| 0 <= k < layers[a].len() && #[trigger] layers[a][k] as int == i
}

pub open spec fn layers_view(layers: Seq<Vec<usize>>) -> Seq<Seq<usize>> {
    layers.map_values(|v: Vec<usize>| v@)
}

/// `layers` is the layering of the members: each member in exactly one layer, every
/// member edge pointing to a strictly earlier layer, every node of a later layer
/// depending on a node of the layer just before, and each layer in increasing order.
pub open spec fn layering_ok(g: Seq<Seq<usize>>, m: Seq<bool>, layers: Seq<Seq<usize>>) -> bool {
    &&& forall|a: int, k: int|
        0 <= a < layers.len() && 0 <= k < layers[a].len() ==> (#[trigger] layers[a][k]) < g.len()
            && m[layers[a][k] as int]
    &&& forall|i: int| 0 <= i < g.len() && m[i] ==> exists|a: int| in_layer(layers, a, i)
    &&& forall|i: int, a: int, b: int|
        in_layer(layers, a, i) && in_layer(layers, b, i) ==> a == b
    &&& forall|i: int, j: int, a: int, b: int|
        member_edge(g, m, i, j) && in_layer(layers, a, i) && in_layer(layers, b, j) ==> b < a
    &&& forall|i: int, a: int|
        in_layer(layers, a, i) && a > 0 ==> exists|j: int|
            member_edge(g, m, i, j) && in_layer(layers, a - 1, j)
    &&& forall|a: int, x: int, y: int|
        0 <= a < layers.len() && 0 <= x < y < layers[a].len() ==> layers[a][x] < layers[a][y]
    &&& forall|a: int| 0 <= a < layers.len() ==> (#[trigger] layers[a]).len() > 0
}

fn assign_layer(level: &mut Vec<Option<usize>>, layer: &Vec<usize>, a: usize)
    requires
        forall|k: int| 0 <= k < layer@.len() ==> (#[trigger] layer@[k]) < old(level)@.len(),
    ensures
        final(level)@.len() == old(level)@.len(),
        forall|i: int|
            0 <= i < old(level)@.len() ==> (#[trigger] final(level)@[i]) == if layer@.contains(
                i as usize,
            ) {
                Some(a)
            } else {
                old(level)@[i]
            },
{
    let ghost start = level@;
    let n = level.len();
    let mut k: usize = 0;
    while k < layer.len()
        invariant
            0 <= k <= layer@.len(),
            level@.len() == start.len(),
            start.len() == n,
            forall|q: int| 0 <= q < layer@.len() ==> (#[trigger] layer@[q]) < start.len(),
            forall|i: int|
                0 <= i < start.len() ==> (#[trigger] level@[i]) == if layer@.take(k as int).contains(
                    i as usize,
                ) {
                    Some(a)
                } else {
                    start[i]
                },
        decreases layer@.len() - k,
    {
        let x = layer[k];
        level.set(x, Some(a));
        proof {
            assert(layer@.take(k + 1) =~= layer@.take(k as int).push(x));
            assert forall|i: int| 0 <= i < start.len() implies (#[trigger] level@[i]) == if layer@.take(
                k + 1,
            ).contains(i as usize) {
                Some(a)
            } else {
                start[i]
            } by {
                let t0 = layer@.take(k as int);
                let t1 = layer@.take(k + 1);
                assert(t1 == t0.push(x));
                if t0.contains(i as usize) {
                    let q = choose|q: int| 0 <= q < t0.len() && #[trigger] t0[q] == i as usize;
                    assert(t1[q] == i as usize);
                }
                if t1.contains(i as usize) && i != x as int {
                    let q = choose|q: int| 0 <= q < t1.len() && #[trigger] t1[q] == i as usize;
                    assert(t1[k as int] == x);
                    assert((i as usize) as int == i);
                    assert(q != k);
                    assert(t0[q] == i as usize);
                }
                if i == x as int {
                    assert(t1[k as int] == x);
                }
            }
        }
        k = k + 1;
    }
    assert(layer@.take(layer@.len() as int) =~= layer@);
}

} // verus!

verus! {

/// The levels given so far, after `a` rounds.
#[verifier::opaque]
pub open spec fn levels_ok(g: Seq<Seq<usize>>, m: Seq<bool>, level: Seq<Option<usize>>, a: int) -> bool {
    &&& level.len() == g.len()
    &&& m.len() == g.len()
    &&& forall|i: int| 0 <= i < g.len() && (#[trigger] level[i]) is Some ==> m[i] && level[i]->0 < a
    &&& forall|i: int, j: int|
        member_edge(g, m, i, j) && (#[trigger] level[i]) is Some ==> (#[trigger] level[j]) is Some
            && level[j]->0 < level[i]->0
    &&& forall|i: int|
        0 <= i < g.len() && (#[trigger] level[i]) is Some && level[i]->0 > 0 ==> exists|j: int|
            member_edge(g, m, i, j) && level[j] == Some((level[i]->0 - 1) as usize)
    &&& a > 0 ==> forall|i: int|
        0 <= i < g.len() && m[i] && (#[trigger] level[i]) is None ==> exists|j: int|
            member_edge(g, m, i, j) && (level[j] is None || level[j] == Some((a - 1) as usize))
}

pub open spec fn round_step(
    g: Seq<Seq<usize>>,
    m: Seq<bool>,
    level: Seq<Option<usize>>,
    layer: Seq<usize>,
    a: int,
    level2: Seq<Option<usize>>,
) -> bool {
    &&& 0 <= a < usize::MAX
    &&& g.len() <= usize::MAX
    &&& levels_ok(g, m, level, a)
    &&& forall|i: int| 0 <= i < g.len() ==> (layer.contains(i as usize) <==> #[trigger] ready(g, m, level, i))
    &&& level2.len() == level.len()
    &&& forall|i: int|
        0 <= i < level.len() ==> (#[trigger] level2[i]) == if ready(g, m, level, i) {
            Some(a as usize)
        } else {
            level[i]
        }
}

proof fn lemma_round_edges(
    g: Seq<Seq<usize>>,
    m: Seq<bool>,
    level: Seq<Option<usize>>,
    layer: Seq<usize>,
    a: int,
    level2: Seq<Option<usize>>,
)
    requires
        round_step(g, m, level, layer, a, level2),
    ensures
        forall|i: int, j: int|
            member_edge(g, m, i, j) && (#[trigger] level2[i]) is Some ==> (#[trigger] level2[j]) is Some
                && level2[j]->0 < level2[i]->0,
{
    reveal(levels_ok);
    assert forall|i: int, j: int|
        member_edge(g, m, i, j) && (#[trigger] level2[i]) is Some implies (#[trigger] level2[j]) is Some
            && level2[j]->0 < level2[i]->0 by {
        if ready(g, m, level, i) {
            assert(level[j] is Some);
            assert(!ready(g, m, level, j));
        } else {
            assert(level[i] is Some);
            assert(level[j] is Some);
            assert(!ready(g, m, level, j));
        }
    }
}

proof fn lemma_round_parents(
    g: Seq<Seq<usize>>,
    m: Seq<bool>,
    level: Seq<Option<usize>>,
    layer: Seq<usize>,
    a: int,
    level2: Seq<Option<usize>>,
)
    requires
        round_step(g, m, level, layer, a, level2),
    ensures
        forall|i: int|
            0 <= i < g.len() && (#[trigger] level2[i]) is Some && level2[i]->0 > 0 ==> exists|j: int|
                member_edge(g, m, i, j) && level2[j] == Some((level2[i]->0 - 1) as usize),
{
    reveal(levels_ok);
    assert forall|i: int|
        0 <= i < g.len() && (#[trigger] level2[i]) is Some && level2[i]->0 > 0 implies exists|j: int|
            member_edge(g, m, i, j) && level2[j] == Some((level2[i]->0 - 1) as usize) by {
        if ready(g, m, level, i) {
            let j = choose|j: int|
                member_edge(g, m, i, j) && (level[j] is None || level[j] == Some((a - 1) as usize));
            assert(level[j] is Some);
            assert(!ready(g, m, level, j));
            assert(level2[j] == level[j]);
        } else {
            let j = choose|j: int| member_edge(g, m, i, j) && level[j] == Some((level[i]->0 - 1) as usize);
            assert(!ready(g, m, level, j));
            assert(level2[j] == level[j]);
        }
    }
}

proof fn lemma_round(
    g: Seq<Seq<usize>>,
    m: Seq<bool>,
    level: Seq<Option<usize>>,
    layer: Seq<usize>,
    a: int,
    level2: Seq<Option<usize>>,
)
    requires
        round_step(g, m, level, layer, a, level2),
    ensures
        levels_ok(g, m, level2, a + 1),
{
    reveal(levels_ok);
    lemma_round_edges(g, m, level, layer, a, level2);
    lemma_round_parents(g, m, level, layer, a, level2);
    assert forall|i: int| 0 <= i < g.len() && (#[trigger] level2[i]) is Some implies m[i] && level2[i]->0 < a + 1 by {
        if !ready(g, m, level, i) {
            assert(level[i] is Some);
        }
    }
    assert forall|i: int|
        0 <= i < g.len() && m[i] && (#[trigger] level2[i]) is None implies exists|j: int|
            member_edge(g, m, i, j) && (level2[j] is None || level2[j] == Some(a as usize)) by {
        assert(!ready(g, m, level, i));
        let j = choose|j: int| member_edge(g, m, i, j) && !(level[j] is Some);
        assert(level2[j] is None || level2[j] == Some(a as usize));
    }
}

} // verus!

verus! {

/// The layers agree with the levels.
#[verifier::opaque]
pub open spec fn layers_match(g: Seq<Seq<usize>>, m: Seq<bool>, level: Seq<Option<usize>>, layers: Seq<Seq<usize>>) -> bool {
    &&& forall|i: int, b: int|
        0 <= i < g.len() && 0 <= b < layers.len() ==> (#[trigger] in_layer(layers, b, i) <==> level[i]
            == Some(b as usize))
    &&& forall|a: int, k: int|
        0 <= a < layers.len() && 0 <= k < layers[a].len() ==> (#[trigger] layers[a][k]) < g.len()
            && m[layers[a][k] as int]
    &&& forall|a: int, x: int, y: int|
        0 <= a < layers.len() && 0 <= x < y < layers[a].len() ==> layers[a][x] < layers[a][y]
    &&& forall|a: int| 0 <= a < layers.len() ==> (#[trigger] layers[a]).len() > 0
}

proof fn lemma_in_layer_level(
    g: Seq<Seq<usize>>,
    m: Seq<bool>,
    level: Seq<Option<usize>>,
    layers: Seq<Seq<usize>>,
    i: int,
    a: int,
)
    requires
        g.len() <= usize::MAX,
        layers_match(g, m, level, layers),
        in_layer(layers, a, i),
    ensures
        0 <= i < g.len(),
        level[i] == Some(a as usize),
{
    reveal(layers_match);
    let k = choose|k: int| 0 <= k < layers[a].len() && #[trigger] layers[a][k] as int == i;
    assert(layers[a][k] < g.len());
}

proof fn lemma_done_cover(
    g: Seq<Seq<usize>>,
    m: Seq<bool>,
    level: Seq<Option<usize>>,
    layers: Seq<Seq<usize>>,
)
    requires
        g.len() <= usize::MAX,
        levels_ok(g, m, level, layers.len() as int),
        layers_match(g, m, level, layers),
        forall|i: int| 0 <= i < g.len() && m[i] ==> (#[trigger] level[i]) is Some,
    ensures
        forall|i: int| 0 <= i < g.len() && m[i] ==> exists|a: int| in_layer(layers, a, i),
{
    assert forall|i: int| 0 <= i < g.len() && m[i] implies exists|a: int| in_layer(layers, a, i) by {
        reveal(levels_ok);
        reveal(layers_match);
        let a = level[i]->0 as int;
        assert(in_layer(layers, a, i));
    }
}

proof fn lemma_done_unique(
    g: Seq<Seq<usize>>,
    m: Seq<bool>,
    level: Seq<Option<usize>>,
    layers: Seq<Seq<usize>>,
)
    requires
        g.len() <= usize::MAX,
        layers.len() <= usize::MAX,
        layers_match(g, m, level, layers),
    ensures
        forall|i: int, a: int, b: int|
            in_layer(layers, a, i) && in_layer(layers, b, i) ==> a == b,
{
    assert forall|i: int, a: int, b: int|
        in_layer(layers, a, i) && in_layer(layers, b, i) implies a == b by {
        lemma_in_layer_level(g, m, level, layers, i, a);
        lemma_in_layer_level(g, m, level, layers, i, b);
    }
}

proof fn lemma_done_edges(
    g: Seq<Seq<usize>>,
    m: Seq<bool>,
    level: Seq<Option<usize>>,
    layers: Seq<Seq<usize>>,
)
    requires
        g.len() <= usize::MAX,
        layers.len() <= usize::MAX,
        levels_ok(g, m, level, layers.len() as int),
        layers_match(g, m, level, layers),
    ensures
        forall|i: int, j: int, a: int, b: int|
            member_edge(g, m, i, j) && in_layer(layers, a, i) && in_layer(layers, b, j) ==> b < a,
{
    assert forall|i: int, j: int, a: int, b: int|
        member_edge(g, m, i, j) && in_layer(layers, a, i) && in_layer(layers, b, j) implies b < a by {
        lemma_in_layer_level(g, m, level, layers, i, a);
        lemma_in_layer_level(g, m, level, layers, j, b);
        reveal(levels_ok);
        assert(level[i] is Some);
    }
}

proof fn lemma_done_parents(
    g: Seq<Seq<usize>>,
    m: Seq<bool>,
    level: Seq<Option<usize>>,
    layers: Seq<Seq<usize>>,
)
    requires
        g.len() <= usize::MAX,
        layers.len() <= usize::MAX,
        levels_ok(g, m, level, layers.len() as int),
        layers_match(g, m, level, layers),
    ensures
        forall|i: int, a: int|
            in_layer(layers, a, i) && a > 0 ==> exists|j: int|
                member_edge(g, m, i, j) && in_layer(layers, a - 1, j),
{
    assert forall|i: int, a: int|
        in_layer(layers, a, i) && a > 0 implies exists|j: int|
            member_edge(g, m, i, j) && in_layer(layers, a - 1, j) by {
        lemma_in_layer_level(g, m, level, layers, i, a);
        reveal(levels_ok);
        let j = choose|j: int| member_edge(g, m, i, j) && level[j] == Some((level[i]->0 - 1) as usize);
        reveal(layers_match);
        assert(in_layer(layers, a - 1, j));
    }
}

proof fn lemma_layering_done(
    g: Seq<Seq<usize>>,
    m: Seq<bool>,
    level: Seq<Option<usize>>,
    layers: Seq<Seq<usize>>,
)
    requires
        g.len() <= usize::MAX,
        layers.len() <= usize::MAX,
        levels_ok(g, m, level, layers.len() as int),
        layers_match(g, m, level, layers),
        forall|i: int| 0 <= i < g.len() && m[i] ==> (#[trigger] level[i]) is Some,
    ensures
        layering_ok(g, m, layers),
{
    lemma_done_cover(g, m, level, layers);
    lemma_done_unique(g, m, level, layers);
    lemma_done_edges(g, m, level, layers);
    lemma_done_parents(g, m, level, layers);
    reveal(layers_match);
}

/// A member that has no level yet, if any.
fn first_unplaced(member: &Vec<bool>, level: &Vec<Option<usize>>) -> (r: Option<usize>)
    requires
        member@.len() == level@.len(),
    ensures
        r is Some ==> r->0 < member@.len() && member@[r->0 as int] && level@[r->0 as int] is None,
        r is None ==> forall|x: int| 0 <= x < member@.len() && member@[x] ==> (#[trigger] level@[x]) is Some,
{
    let mut s: usize = 0;
    while s < member.len()
        invariant
            0 <= s <= member@.len(),
            member@.len() == level@.len(),
            forall|x: int| 0 <= x < s && member@[x] ==> (#[trigger] level@[x]) is Some,
        decreases member@.len() - s,
    {
        if member[s] && level[s].is_none() {
            return Some(s);
        }
        s = s + 1;
    }
    None
}

#[verifier::rlimit(100)]
/// Layers the members of a graph: first the members with no member dependency, then
/// those whose member dependencies all sit in earlier layers, and so on; or, where the
/// members hold a cycle, one such cycle.
pub fn layer_nodes(adj: &Vec<Vec<usize>>, member: &Vec<bool>) -> (r: Result<Vec<Vec<usize>>, Vec<usize>>)
    requires
        graph_wf(adj_view(adj@)),
        member@.len() == adj@.len(),
    ensures
        r is Ok ==> layering_ok(adj_view(adj@), member@, layers_view(r->Ok_0@)),
        r is Err ==> is_cycle(adj_view(adj@), to_ints(r->Err_0@)) && r->Err_0@.drop_last().no_duplicates() && forall|k: int|
            0 <= k < r->Err_0@.len() ==> member@[#[trigger] r->Err_0@[k] as int],
{
    let ghost g = adj_view(adj@);
    let n = adj.len();
    let mut level: Vec<Option<usize>> = Vec::new();
    let mut i: usize = 0;
    while i < n
        invariant
            0 <= i <= n,
            level@.len() == i,
            forall|k: int| 0 <= k < i ==> level@[k] is None,
        decreases n - i,
    {
        level.push(None);
        i = i + 1;
    }
    let mut layers: Vec<Vec<usize>> = Vec::new();
    let ghost mut placed: Seq<usize> = Seq::empty();
    assert(layers_view(layers@) =~= Seq::<Seq<usize>>::empty());
    proof {
        reveal(levels_ok);
        reveal(layers_match);
    }
    loop
        invariant
            g == adj_view(adj@),
            n == adj@.len(),
            graph_wf(g),
            member@.len() == n,
            level@.len() == n,
            levels_ok(g, member@, level@, layers@.len() as int),
            layers_match(g, member@, level@, layers_view(layers@)),
            placed.no_duplicates(),
            forall|k: int| 0 <= k < placed.len() ==> (#[trigger] placed[k]) < n,
            forall|x: int| 0 <= x < n ==> (placed.contains(x as usize) <==> (#[trigger] level@[x]) is Some),
            layers@.len() <= placed.len(),
        decreases n - placed.len(),
    {
        proof {
            lemma_distinct_bounded(placed, n as nat);
        }
        let layer = next_layer(adj, member, &level);
        if layer.len() == 0 {
            match first_unplaced(member, &level) {
                Some(s) => {
                    proof {
                        assert forall|x: int| 0 <= x < g.len() && member@[x] && level@[x] is None implies exists|j: int|
                            member_edge(g, member@, x, j) && (#[trigger] level@[j]) is None by {
                            if ready(g, member@, level@, x) {
                                assert(layer@.contains(x as usize));
                            }
                        }
                    }
                    return Err(find_cycle(adj, member, &level, s));
                },
                None => {
                    proof {
                        lemma_layering_done(g, member@, level@, layers_view(layers@));
                    }
                    return Ok(layers);
                },
            }
        }
        let a = layers.len();
        let ghost level0 = level@;
        proof {
            assert(g.len() == n);
            assert(ready(g, member@, level0, layer@[0] as int));
            assert(!placed.contains(layer@[0]));
            lemma_push_distinct(placed, layer@[0]);
            lemma_distinct_bounded(placed.push(layer@[0]), n as nat);
            assert(a < usize::MAX);
            assert forall|x: int| 0 <= x < g.len() implies (layer@.contains(x as usize) <==> #[trigger] ready(g, member@, level0, x)) by {
                if layer@.contains(x as usize) {
                    let k = choose|k: int| 0 <= k < layer@.len() && layer@[k] == x as usize;
                    assert(ready(g, member@, level0, layer@[k] as int));
                }
            }
            assert forall|k: int| 0 <= k < layer@.len() implies (#[trigger] layer@[k]) < level@.len() by {
                assert(ready(g, member@, level0, layer@[k] as int));
            }
        }
        assign_layer(&mut level, &layer, a);
        proof {
            assert forall|x: int| 0 <= x < level0.len() implies (#[trigger] level@[x]) == if ready(g, member@, level0, x) {
                Some(a as usize)
            } else {
                level0[x]
            } by {
                assert(layer@.contains(x as usize) == ready(g, member@, level0, x));
            }
            lemma_round(g, member@, level0, layer@, a as int, level@);
        }
        let ghost old_layers = layers_view(layers@);
        let ghost old_placed = placed;
        layers.push(layer);
        proof {
            let lv = layers_view(layers@);
            assert(lv == old_layers.push(layer@));
            lemma_layer_distinct(layer@);
            assert forall|k: int| 0 <= k < layer@.len() implies !old_placed.contains(#[trigger] layer@[k]) by {
                assert(ready(g, member@, level0, layer@[k] as int));
            }
            vstd::seq_lib::lemma_no_dup_in_concat(old_placed, layer@);
            placed = placed + layer@;
            assert(placed.len() > old_placed.len());
            assert forall|k: int| 0 <= k < placed.len() implies (#[trigger] placed[k]) < n by {
                if k >= old_placed.len() {
                    assert(placed[k] == layer@[k - old_placed.len()]);
                    assert(ready(g, member@, level0, layer@[k - old_placed.len()] as int));
                } else {
                    assert(placed[k] == old_placed[k]);
                }
            }
            lemma_distinct_bounded(placed, n as nat);
            lemma_placed_update(g, member@, level0, level@, layer@, old_placed, a as int);
            lemma_push_layer(g, member@, level0, level@, layer@, old_layers, a as int);
        }
    }
}

proof fn lemma_layer_distinct(layer: Seq<usize>)
    requires
        forall|a: int, b: int| 0 <= a < b < layer.len() ==> layer[a] < layer[b],
    ensures
        layer.no_duplicates(),
{
    assert forall|p: int, q: int| 0 <= p < layer.len() && 0 <= q < layer.len() && p != q implies layer[p] != layer[q] by {
        if p < q {
            assert(layer[p] < layer[q]);
        } else {
            assert(layer[q] < layer[p]);
        }
    }
}

proof fn lemma_placed_update(
    g: Seq<Seq<usize>>,
    m: Seq<bool>,
    level0: Seq<Option<usize>>,
    level: Seq<Option<usize>>,
    layer: Seq<usize>,
    old_placed: Seq<usize>,
    a: int,
)
    requires
        g.len() <= usize::MAX,
        level0.len() == g.len(),
        level.len() == g.len(),
        forall|x: int| 0 <= x < g.len() ==> (old_placed.contains(x as usize) <==> (#[trigger] level0[x]) is Some),
        forall|x: int| 0 <= x < g.len() ==> (layer.contains(x as usize) <==> #[trigger] ready(g, m, level0, x)),
        forall|x: int|
            0 <= x < g.len() ==> (#[trigger] level[x]) == if ready(g, m, level0, x) {
                Some(a as usize)
            } else {
                level0[x]
            },
    ensures
        forall|x: int| 0 <= x < g.len() ==> ((old_placed + layer).contains(x as usize) <==> (#[trigger] level[x]) is Some),
{
    let placed = old_placed + layer;
    assert forall|x: int| 0 <= x < g.len() implies (placed.contains(x as usize) <==> (#[trigger] level[x]) is Some) by {
        if placed.contains(x as usize) {
            let k = choose|k: int| 0 <= k < placed.len() && placed[k] == x as usize;
            if k >= old_placed.len() {
                assert(layer[k - old_placed.len()] == x as usize);
            } else {
                assert(old_placed[k] == x as usize);
            }
        }
        if level[x] is Some && !ready(g, m, level0, x) {
            let k = choose|k: int| 0 <= k < old_placed.len() && old_placed[k] == x as usize;
            assert(placed[k] == x as usize);
        }
        if ready(g, m, level0, x) {
            let k = choose|k: int| 0 <= k < layer.len() && layer[k] == x as usize;
            assert(placed[old_placed.len() + k] == x as usize);
        }
    }
}

proof fn lemma_push_layer(
    g: Seq<Seq<usize>>,
    m: Seq<bool>,
    level0: Seq<Option<usize>>,
    level: Seq<Option<usize>>,
    layer: Seq<usize>,
    old_layers: Seq<Seq<usize>>,
    a: int,
)
    requires
        g.len() <= usize::MAX,
        a == old_layers.len(),
        0 <= a < usize::MAX,
        level0.len() == g.len(),
        level.len() == g.len(),
        layers_match(g, m, level0, old_layers),
        levels_ok(g, m, level0, a),
        forall|x: int| 0 <= x < g.len() ==> (layer.contains(x as usize) <==> #[trigger] ready(g, m, level0, x)),
        forall|k: int| 0 <= k < layer.len() ==> ready(g, m, level0, #[trigger] layer[k] as int),
        forall|x: int, y: int| 0 <= x < y < layer.len() ==> layer[x] < layer[y],
        layer.len() > 0,
        forall|x: int|
            0 <= x < g.len() ==> (#[trigger] level[x]) == if ready(g, m, level0, x) {
                Some(a as usize)
            } else {
                level0[x]
            },
    ensures
        layers_match(g, m, level, old_layers.push(layer)),
{
    reveal(layers_match);
    reveal(levels_ok);
    let lv = old_layers.push(layer);
    assert forall|i: int, b: int|
        0 <= i < g.len() && 0 <= b < lv.len() implies (#[trigger] in_layer(lv, b, i) <==> level[i]
            == Some(b as usize)) by {
        if b < a {
            assert(lv[b] == old_layers[b]);
            assert(in_layer(old_layers, b, i) == in_layer(lv, b, i));
            if ready(g, m, level0, i) {
                assert(level0[i] is None);
            }
        } else {
            assert(lv[b] == layer);
            if in_layer(lv, b, i) {
                let k = choose|k: int| 0 <= k < layer.len() && #[trigger] layer[k] as int == i;
                assert(ready(g, m, level0, layer[k] as int));
            }
            if ready(g, m, level0, i) {
                assert(layer.contains(i as usize));
                let k = choose|k: int| 0 <= k < layer.len() && layer[k] == i as usize;
                assert(layer[k] as int == i);
            }
        }
    }
    assert forall|b: int, k: int|
        0 <= b < lv.len() && 0 <= k < lv[b].len() implies (#[trigger] lv[b][k]) < g.len()
            && m[lv[b][k] as int] by {
        if b == a {
            assert(ready(g, m, level0, layer[k] as int));
        } else {
            assert(lv[b] == old_layers[b]);
        }
    }
    assert forall|b: int, x: int, y: int|
        0 <= b < lv.len() && 0 <= x < y < lv[b].len() implies lv[b][x] < lv[b][y] by {
        if b < a {
            assert(lv[b] == old_layers[b]);
        }
    }
    assert forall|b: int| 0 <= b < lv.len() implies (#[trigger] lv[b]).len() > 0 by {
        if b < a {
            assert(lv[b] == old_layers[b]);
        }
    }
}

} // verus!

verus! {

/// Node `i` reaches a bad node.
pub open spec fn reaches_bad(g: Seq<Seq<usize>>, bad: Seq<bool>, i: int) -> bool {
    exists|j: int| reaches(g, i, j) && bad[j]
}

pub proof fn lemma_reaches_bad_step(g: Seq<Seq<usize>>, bad: Seq<bool>, i: int)
    requires
        0 <= i < g.len(),
    ensures
        reaches_bad(g, bad, i) <==> (bad[i] || exists|j: int| edge(g, i, j) && #[trigger] reaches_bad(g, bad, j)),
{
    if reaches_bad(g, bad, i) {
        let j = choose|j: int| reaches(g, i, j) && bad[j];
        let w = choose|w: Seq<int>| is_walk(g, w) && w[0] == i && w.last() == j;
        if w.len() > 1 {
            let w2 = w.drop_first();
            assert(is_walk(g, w2)) by {
                assert forall|k: int| 0 <= k < w2.len() - 1 implies edge(g, #[trigger] w2[k], w2[k + 1]) by {
                    assert(w2[k] == w[k + 1]);
                    assert(edge(g, w[k + 1], w[k + 2]));
                }
                assert forall|k: int| 0 <= k < w2.len() implies 0 <= #[trigger] w2[k] < g.len() by {
                    assert(w2[k] == w[k + 1]);
                }
            }
            assert(edge(g, w[0], w[1]));
            assert(w2[0] == w[1] && w2.last() == j);
            assert(reaches(g, w[1], j));
            assert(reaches_bad(g, bad, w[1]));
        }
    }
    if bad[i] {
        let w = seq![i];
        assert(is_walk(g, w));
        assert(w[0] == i && w.last() == i);
        assert(reaches(g, i, i));
    }
    if exists|j: int| edge(g, i, j) && #[trigger] reaches_bad(g, bad, j) {
        let j = choose|j: int| edge(g, i, j) && #[trigger] reaches_bad(g, bad, j);
        let t = choose|t: int| reaches(g, j, t) && bad[t];
        let w = choose|w: Seq<int>| is_walk(g, w) && w[0] == j && w.last() == t;
        let w2 = seq![i] + w;
        assert(is_walk(g, w2)) by {
            assert forall|k: int| 0 <= k < w2.len() - 1 implies edge(g, #[trigger] w2[k], w2[k + 1]) by {
                if k > 0 {
                    assert(w2[k] == w[k - 1]);
                    assert(w2[k + 1] == w[k]);
                }
            }
            assert forall|k: int| 0 <= k < w2.len() implies 0 <= #[trigger] w2[k] < g.len() by {
                if k > 0 {
                    assert(w2[k] == w[k - 1]);
                }
            }
        }
        assert(w2[0] == i && w2.last() == t);
        assert(reaches(g, i, t));
    }
}

/// Whether some successor of a node is marked.
fn any_marked(succ: &Vec<usize>, marked: &Vec<bool>) -> (r: bool)
    requires
        forall|k: int| 0 <= k < succ@.len() ==> (#[trigger] succ@[k]) < marked@.len(),
    ensures
        r == exists|k: int| 0 <= k < succ@.len() && marked@[#[trigger] succ@[k] as int],
{
    let mut k: usize = 0;
    while k < succ.len()
        invariant
            0 <= k <= succ@.len(),
            forall|q: int| 0 <= q < succ@.len() ==> (#[trigger] succ@[q]) < marked@.len(),
            forall|q: int| 0 <= q < k ==> !marked@[#[trigger] succ@[q] as int],
        decreases succ@.len() - k,
    {
        if marked[succ[k]] {
            return true;
        }
        k = k + 1;
    }
    false
}

/// Marks every node from which a bad node can be reached, taking the nodes layer by
/// layer so that each node's dependencies are settled before it.
pub fn propagate(adj: &Vec<Vec<usize>>, layers: &Vec<Vec<usize>>, bad: &Vec<bool>) -> (r: Vec<bool>)
    requires
        graph_wf(adj_view(adj@)),
        bad@.len() == adj@.len(),
        layering_ok(adj_view(adj@), Seq::new(adj@.len(), |i: int| true), layers_view(layers@)),
    ensures
        r@.len() == adj@.len(),
        forall|i: int| 0 <= i < adj@.len() ==> r@[i] == reaches_bad(adj_view(adj@), bad@, i),
{
    let ghost g = adj_view(adj@);
    let ghost all = Seq::new(adj@.len(), |i: int| true);
    let ghost lv = layers_view(layers@);
    let n = adj.len();
    let mut marked: Vec<bool> = Vec::new();
    let mut i: usize = 0;
    while i < n
        invariant
            0 <= i <= n,
            marked@.len() == i,
            forall|k: int| 0 <= k < i ==> !marked@[k],
        decreases n - i,
    {
        marked.push(false);
        i = i + 1;
    }
    let mut a: usize = 0;
    while a < layers.len()
        invariant
            g == adj_view(adj@),
            lv == layers_view(layers@),
            all == Seq::new(adj@.len(), |i: int| true),
            n == adj@.len(),
            graph_wf(g),
            bad@.len() == n,
            layering_ok(g, all, lv),
            marked@.len() == n,
            0 <= a <= layers@.len(),
            forall|x: int, b: int| 0 <= b < a && in_layer(lv, b, x) ==> marked@[x] == reaches_bad(g, bad@, x),
            forall|x: int| 0 <= x < n && !(exists|b: int| 0 <= b < a && in_layer(lv, b, x)) ==> !marked@[x],
        decreases layers@.len() - a,
    {
        let layer = &layers[a];
        let mut k: usize = 0;
        while k < layer.len()
            invariant
                g == adj_view(adj@),
                lv == layers_view(layers@),
                all == Seq::new(adj@.len(), |i: int| true),
                n == adj@.len(),
                graph_wf(g),
                bad@.len() == n,
                layering_ok(g, all, lv),
                marked@.len() == n,
                0 <= a < layers@.len(),
                *layer == layers@[a as int],
                0 <= k <= layer@.len(),
                forall|x: int, b: int| 0 <= b < a && in_layer(lv, b, x) ==> marked@[x] == reaches_bad(g, bad@, x),
                forall|q: int| 0 <= q < k ==> marked@[#[trigger] layer@[q] as int] == reaches_bad(g, bad@, layer@[q] as int),
                forall|x: int|
                    0 <= x < n && !(exists|b: int| 0 <= b < a && in_layer(lv, b, x)) && !(exists|q: int|
                        0 <= q < k && layer@[q] as int == x) ==> !marked@[x],
            decreases layer@.len() - k,
        {
            let x = layer[k];
            proof {
                assert(lv[a as int] == layer@);
                assert(in_layer(lv, a as int, x as int));
                assert(g[x as int] == adj@[x as int]@);
            }
            let m = bad[x] || any_marked(&adj[x], &marked);
            proof {
                lemma_reaches_bad_step(g, bad@, x as int);
                // every dependency of x lies in an earlier layer, where marks are settled
                assert forall|j: int| edge(g, x as int, j) implies marked@[j] == reaches_bad(g, bad@, j) by {
                    let b = choose|b: int| in_layer(lv, b, j);
                    assert(member_edge(g, all, x as int, j));
                }
                if m && !bad@[x as int] {
                    let q = choose|q: int| 0 <= q < adj@[x as int]@.len() && marked@[#[trigger] adj@[x as int]@[q] as int];
                    assert(edge(g, x as int, adj@[x as int]@[q] as int));
                }
                if !m {
                    assert forall|j: int| edge(g, x as int, j) implies !reaches_bad(g, bad@, j) by {
                        let q = choose|q: int| 0 <= q < adj@[x as int]@.len() && adj@[x as int]@[q] == j as usize;
                        assert(!marked@[adj@[x as int]@[q] as int]);
                    }
                }
            }
            let ghost before = marked@;
            marked.set(x, m);
            proof {
                assert forall|x2: int, b: int| 0 <= b < a && in_layer(lv, b, x2) implies marked@[x2] == reaches_bad(g, bad@, x2) by {
                    if x2 == x as int {
                        assert(in_layer(lv, a as int, x2));
                    }
                }
                assert forall|q: int| 0 <= q < k + 1 implies marked@[#[trigger] layer@[q] as int] == reaches_bad(g, bad@, layer@[q] as int) by {
                    if q < k && layer@[q] == x {
                        assert(layer@[q] as int == x as int);
                    }
                }
            }
            k = k + 1;
        }
        proof {
            assert forall|x: int, b: int| 0 <= b < a + 1 && in_layer(lv, b, x) implies marked@[x] == reaches_bad(g, bad@, x) by {
                if b == a {
                    let q = choose|q: int| 0 <= q < lv[b].len() && #[trigger] lv[b][q] as int == x;
                    assert(lv[b] == layer@);
                    assert(layer@[q] as int == x);
                }
            }
            assert forall|x: int| 0 <= x < n && !(exists|b: int| 0 <= b < a + 1 && in_layer(lv, b, x)) implies !marked@[x] by {
                if exists|q: int| 0 <= q < layer@.len() && layer@[q] as int == x {
                    let q = choose|q: int| 0 <= q < layer@.len() && layer@[q] as int == x;
                    assert(lv[a as int] == layer@);
                    assert(in_layer(lv, a as int, x));
                }
                assert(!(exists|b: int| 0 <= b < a && in_layer(lv, b, x)));
            }
        }
        a = a + 1;
    }
    proof {
        assert forall|i: int| 0 <= i < n implies marked@[i] == reaches_bad(g, bad@, i) by {
            assert(all[i]);
            let b = choose|b: int| in_layer(lv, b, i);
        }
    }
    marked
}

} // verus!

verus! {

/// The body `b` of a cycle, read from position `best` round to it again.
pub open spec fn rotation(b: Seq<usize>, best: int) -> Seq<usize> {
    Seq::new(
        (b.len() + 1) as nat,
        |t: int|
            if t == b.len() {
                b[best]
            } else if best + t < b.len() {
                b[best + t]
            } else {
                b[best + t - b.len()]
            },
    )
}

proof fn lemma_rotation_walk(g: Seq<Seq<usize>>, c: Seq<usize>, best: int)
    requires
        is_cycle(g, to_ints(c)),
        0 <= best < c.len() - 1,
    ensures
        is_cycle(g, to_ints(rotation(c.drop_last(), best))),
{
    let b = c.drop_last();
    let m = b.len() as int;
    let ci = to_ints(c);
    let ri = to_ints(rotation(b, best));
    assert forall|x: int| #![trigger b[x]] 0 <= x < m implies edge(g, b[x] as int, (if x + 1 < m { b[x + 1] } else { b[0] }) as int) by {
        assert(edge(g, ci[x], ci[x + 1]));
        assert(ci[x] == b[x] as int);
        if x + 1 < m {
            assert(ci[x + 1] == b[x + 1] as int);
        } else {
            assert(ci[x + 1] == ci[0]);
        }
    }
    assert forall|k: int| 0 <= k < ri.len() - 1 implies edge(g, #[trigger] ri[k], ri[k + 1]) by {
        let x = if best + k < m { best + k } else { best + k - m };
        assert(ri[k] == b[x] as int);
        if k + 1 == m {
            if best == 0 {
                assert(x == m - 1);
            } else {
                assert(x == best - 1);
            }
        } else {
            let y = if best + k + 1 < m { best + k + 1 } else { best + k + 1 - m };
            assert(ri[k + 1] == b[y] as int);
        }
    }
    assert forall|k: int| 0 <= k < ri.len() implies 0 <= #[trigger] ri[k] < g.len() by {
        let x = if k == m { best } else if best + k < m { best + k } else { best + k - m };
        assert(ci[x] == b[x] as int);
        assert(0 <= ci[x] < g.len());
    }
    assert(ri[0] == ri.last());
}

proof fn lemma_rotation_simple(b: Seq<usize>, best: int)
    requires
        b.no_duplicates(),
        0 <= best < b.len(),
        forall|x: int| 0 <= x < b.len() ==> b[best] <= #[trigger] b[x],
    ensures
        rotation(b, best).drop_last().no_duplicates(),
        forall|k: int| 0 <= k < rotation(b, best).len() ==> rotation(b, best)[0] <= #[trigger] rotation(b, best)[k],
{
    let m = b.len() as int;
    let r = rotation(b, best);
    assert forall|a: int, bb: int| 0 <= a < r.drop_last().len() && 0 <= bb < r.drop_last().len() && a != bb
        implies r.drop_last()[a] != r.drop_last()[bb] by {
        let xa = if best + a < m { best + a } else { best + a - m };
        let xb = if best + bb < m { best + bb } else { best + bb - m };
        assert(r.drop_last()[a] == b[xa]);
        assert(r.drop_last()[bb] == b[xb]);
    }
    assert forall|k: int| 0 <= k < r.len() implies r[0] <= #[trigger] r[k] by {
        let x = if k == m { best } else if best + k < m { best + k } else { best + k - m };
        assert(r[k] == b[x]);
    }
}

/// The same cycle, started at its smallest node.
pub fn rotate_cycle(adj: &Vec<Vec<usize>>, c: &Vec<usize>) -> (r: Vec<usize>)
    requires
        is_cycle(adj_view(adj@), to_ints(c@)),
        c@.drop_last().no_duplicates(),
    ensures
        is_cycle(adj_view(adj@), to_ints(r@)),
        r@.drop_last().no_duplicates(),
        forall|k: int| 0 <= k < r@.len() ==> r@[0] <= #[trigger] r@[k],
{
    let ghost b = c@.drop_last();
    let m = c.len() - 1;
    let mut best: usize = 0;
    let mut i: usize = 1;
    while i < m
        invariant
            m == c@.len() - 1,
            b == c@.drop_last(),
            1 <= m,
            best < m,
            1 <= i <= m,
            forall|x: int| 0 <= x < i ==> b[best as int] <= #[trigger] b[x],
        decreases m - i,
    {
        if c[i] < c[best] {
            best = i;
        }
        i = i + 1;
    }
    let ghost rot = rotation(b, best as int);
    let mut r: Vec<usize> = Vec::new();
    let mut t: usize = 0;
    while t < m
        invariant
            m == c@.len() - 1,
            b == c@.drop_last(),
            best < m,
            0 <= t <= m,
            rot == rotation(b, best as int),
            r@ == rot.take(t as int),
        decreases m - t,
    {
        let x = if t < m - best { c[best + t] } else { c[t - (m - best)] };
        r.push(x);
        proof {
            assert(rot.take(t + 1) =~= rot.take(t as int).push(rot[t as int]));
        }
        t = t + 1;
    }
    r.push(c[best]);
    proof {
        assert(r@ =~= rot);
        lemma_rotation_walk(adj_view(adj@), c@, best as int);
        lemma_rotation_simple(b, best as int);
    }
    r
}

} // verus!
