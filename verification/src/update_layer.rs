//! Ordering of plugins by their declared dependencies, and the kinds of
//! time steps that schedules run at.
use std::any::TypeId;
use std::time::{Duration, Instant};

use vstd::prelude::*;

verus! {

pub enum TimeStepKind {
    PerTick,
    FixedTimeStep,
}

/// Identifies a plugin by its type and name.
pub struct PluginKey {
    pub ty: TypeId,
    pub name: &'static str,
}

/// Runs a schedule once per tick, tracking the time of the last tick and the
/// time elapsed since the first.
#[derive(Debug, Clone, Copy)]
pub struct PerTick {
    pub current_time: Instant,
    pub elapsed: Duration,
}

/// Runs a schedule once, before any other.
#[derive(Debug, Clone, Copy)]
pub struct Startup;

/// The dependency lists of each plugin.
pub open spec fn rows(deps: Seq<Vec<usize>>) -> Seq<Seq<usize>> {
    deps.map_values(|r: Vec<usize>| r@)
}

/// `a` depends on `b`: `b` must run before `a`.
pub open spec fn depends(deps: Seq<Seq<usize>>, a: usize, b: usize) -> bool {
    deps[a as int].contains(b)
}

/// Every dependency names a plugin of the graph.
pub open spec fn valid_deps(deps: Seq<Seq<usize>>) -> bool {
    forall|i: int, k: int|
        0 <= i < deps.len() && 0 <= k < deps[i].len() ==> #[trigger] deps[i][k] < deps.len()
}

/// `p` is a walk through the graph, each plugin depending on the next one.
pub open spec fn is_dep_path(deps: Seq<Seq<usize>>, p: Seq<usize>) -> bool {
    &&& p.len() > 0
    &&& forall|k: int| 0 <= k < p.len() ==> #[trigger] p[k] < deps.len()
    &&& forall|k: int| 0 <= k < p.len() - 1 ==> #[trigger] depends(deps, p[k], p[k + 1])
}

/// Some plugin depends, directly or through others, on itself.
pub open spec fn has_cycle(deps: Seq<Seq<usize>>) -> bool {
    exists|p: Seq<usize>| #[trigger] is_dep_path(deps, p) && p.len() > 1 && p[0] == p.last()
}

/// `order` lists each of the plugins `0..n` exactly once.
pub open spec fn is_order_of(order: Seq<usize>, n: nat) -> bool {
    &&& order.len() == n
    &&& order.no_duplicates()
    &&& forall|k: int| 0 <= k < order.len() ==> #[trigger] order[k] < n
    &&& forall|x: usize| x < n ==> #[trigger] order.contains(x)
}

/// Each plugin of `order` comes after every plugin it depends on.
pub open spec fn respects_deps(order: Seq<usize>, deps: Seq<Seq<usize>>) -> bool {
    forall|p: int, q: int|
        0 <= p < order.len() && 0 <= q < order.len() && #[trigger] depends(deps, order[p], order[q])
            ==> q < p
}

/// Number of entries of `v` equal to `s`.
pub open spec fn count(v: Seq<u8>, s: u8) -> nat
    decreases v.len(),
{
    if v.len() == 0 {
        0
    } else {
        count(v.drop_last(), s) + if v.last() == s { 1nat } else { 0nat }
    }
}

proof fn lemma_count_update(v: Seq<u8>, i: int, x: u8, s: u8)
    requires
        0 <= i < v.len(),
    ensures
        count(v.update(i, x), s) + (if v[i] == s { 1int } else { 0int })
            == count(v, s) + (if x == s { 1int } else { 0int }),
    decreases v.len(),
{
    let w = v.update(i, x);
    if i == v.len() - 1 {
        assert(w.drop_last() == v.drop_last());
    } else {
        assert(w.drop_last() == v.drop_last().update(i, x));
        lemma_count_update(v.drop_last(), i, x, s);
    }
}

proof fn lemma_count_total(v: Seq<u8>)
    requires
        forall|i: int| 0 <= i < v.len() ==> #[trigger] v[i] <= 2,
    ensures
        count(v, 0) + count(v, 1) + count(v, 2) == v.len(),
    decreases v.len(),
{
    if v.len() > 0 {
        lemma_count_total(v.drop_last());
    }
}

proof fn lemma_count_positive(v: Seq<u8>, i: int, s: u8)
    requires
        0 <= i < v.len(),
        v[i] == s,
    ensures
        count(v, s) >= 1,
    decreases v.len(),
{
    if i < v.len() - 1 {
        lemma_count_positive(v.drop_last(), i, s);
    }
}

/// A state of the depth-first search: the mark of each plugin (not reached
/// 0, on the current path 1, placed 2) and the plugins placed so far.
pub type DfsState = (Seq<u8>, Seq<usize>);

/// Visits `index` from `st`: unless it is placed already, marks it, visits
/// the plugins it depends on in the order it lists them, then places it.
/// Reaching a plugin on the current path is a cycle, reported as the plugin
/// being visited and that dependency. `fuel` bounds how deep the visit goes.
pub open spec fn dfs_visit(deps: Seq<Seq<usize>>, st: DfsState, index: usize, fuel: nat) -> Result<DfsState, (usize, usize)>
    decreases fuel, 0nat,
{
    if st.0[index as int] == 2 || fuel == 0 {
        Ok(st)
    } else {
        match dfs_visit_deps(deps, (st.0.update(index as int, 1), st.1), index, 0, (fuel - 1) as nat) {
            Err(e) => Err(e),
            Ok(done) => Ok((done.0.update(index as int, 2), done.1.push(index))),
        }
    }
}

/// Visits, from `st`, the dependencies of `index` from its `k`-th on.
pub open spec fn dfs_visit_deps(deps: Seq<Seq<usize>>, st: DfsState, index: usize, k: nat, fuel: nat) -> Result<DfsState, (usize, usize)>
    decreases fuel, deps[index as int].len() + 1 - k,
{
    if k >= deps[index as int].len() {
        Ok(st)
    } else {
        let dep = deps[index as int][k as int];
        if st.0[dep as int] == 1 {
            Err((index, dep))
        } else if st.0[dep as int] == 0 {
            match dfs_visit(deps, st, dep, fuel) {
                Err(e) => Err(e),
                Ok(next) => dfs_visit_deps(deps, next, index, k + 1, fuel),
            }
        } else {
            dfs_visit_deps(deps, st, index, k + 1, fuel)
        }
    }
}

/// Visits, from `st`, every plugin from the `i`-th on, in index order.
pub open spec fn dfs_visit_from(deps: Seq<Seq<usize>>, st: DfsState, i: nat) -> Result<DfsState, (usize, usize)>
    decreases deps.len() + 1 - i,
{
    if i >= deps.len() {
        Ok(st)
    } else {
        match dfs_visit(deps, st, i as usize, deps.len()) {
            Err(e) => Err(e),
            Ok(next) => dfs_visit_from(deps, next, i + 1),
        }
    }
}

/// The order in which a depth-first search, visiting the plugins in index
/// order and the dependencies of each in the order they are listed, places
/// the plugins; or the cycle it runs into.
pub open spec fn dfs_order(deps: Seq<Seq<usize>>) -> Result<Seq<usize>, (usize, usize)> {
    match dfs_visit_from(deps, (Seq::new(deps.len(), |_i: int| 0u8), Seq::empty()), 0) {
        Ok(st) => Ok(st.1),
        Err(e) => Err(e),
    }
}

/// The bookkeeping of the depth-first search: `visited` marks each plugin as
/// not reached (0), on the current path (1) or placed (2); `sorted` holds the
/// placed plugins, each after its dependencies; `stack` is the current path.
spec fn dfs_inv(deps: Seq<Seq<usize>>, visited: Seq<u8>, sorted: Seq<usize>, stack: Seq<usize>) -> bool {
    let n = deps.len();
    &&& visited.len() == n
    &&& forall|x: int| 0 <= x < n ==> #[trigger] visited[x] <= 2
    &&& forall|k: int| 0 <= k < sorted.len() ==> #[trigger] sorted[k] < n
    &&& forall|k: int| 0 <= k < sorted.len() ==> visited[#[trigger] sorted[k] as int] == 2
    &&& forall|x: usize| x < n && visited[x as int] == 2 ==> #[trigger] sorted.contains(x)
    &&& sorted.no_duplicates()
    &&& sorted.len() == count(visited, 2)
    &&& forall|k: int| 0 <= k < stack.len() ==> #[trigger] stack[k] < n
    &&& forall|k: int| 0 <= k < stack.len() ==> visited[#[trigger] stack[k] as int] == 1
    &&& forall|x: usize| x < n && visited[x as int] == 1 ==> #[trigger] stack.contains(x)
    &&& stack.len() == count(visited, 1)
    &&& forall|k: int| 0 <= k < stack.len() - 1 ==> #[trigger] depends(deps, stack[k], stack[k + 1])
    &&& respects_deps(sorted, deps)
    &&& forall|x: usize, d: usize|
        x < n && visited[x as int] == 2 && #[trigger] depends(deps, x, d) ==> visited[d as int] == 2
}

/// Visits `index` and, first, every plugin it depends on, appending each to
/// `sorted` after its dependencies. On a cycle, returns the plugin being
/// visited and the dependency that closes the cycle.
fn visit(
    index: usize,
    deps: &Vec<Vec<usize>>,
    sorted: &mut Vec<usize>,
    visited: &mut Vec<u8>,
    Ghost(stack): Ghost<Seq<usize>>,
) -> (r: Result<(), (usize, usize)>)
    requires
        valid_deps(rows(deps@)),
        dfs_inv(rows(deps@), old(visited)@, old(sorted)@, stack),
        index < deps@.len(),
        old(visited)@[index as int] != 1,
        old(visited)@[index as int] == 0 ==> (stack.len() == 0 || depends(rows(deps@), stack.last(), index)),
    ensures
        r is Ok ==> {
            &&& dfs_inv(rows(deps@), final(visited)@, final(sorted)@, stack)
            &&& final(visited)@[index as int] == 2
            &&& final(sorted)@.len() >= old(sorted)@.len()
            &&& final(sorted)@.take(old(sorted)@.len() as int) == old(sorted)@
            &&& forall|x: int| 0 <= x < deps@.len() && old(visited)@[x] == 2 ==> #[trigger] final(visited)@[x] == 2
        },
        r matches Err((a, b)) ==> {
            &&& a < deps@.len()
            &&& depends(rows(deps@), a, b)
            &&& exists|p: Seq<usize>| #[trigger] is_dep_path(rows(deps@), p) && p[0] == b && p.last() == a
        },
        r is Ok ==> dfs_visit(rows(deps@), (old(visited)@, old(sorted)@), index, (deps@.len() - stack.len()) as nat)
            == Ok::<DfsState, (usize, usize)>((final(visited)@, final(sorted)@)),
        r matches Err(e) ==> dfs_visit(rows(deps@), (old(visited)@, old(sorted)@), index, (deps@.len() - stack.len()) as nat)
            == Err::<DfsState, (usize, usize)>(e),
    decreases deps@.len() - old(sorted)@.len() - stack.len(),
{
    let ghost g = rows(deps@);
    let ghost n = deps@.len();
    if visited[index] == 2 {
        return Ok(());
    }
    proof {
        lemma_count_total(visited@);
        lemma_count_positive(visited@, index as int, 0);
        lemma_count_update(visited@, index as int, 1, 1);
        lemma_count_update(visited@, index as int, 1, 2);
    }
    let ghost fuel = (n - stack.len()) as nat;
    assert(fuel > 0);
    visited.set(index, 1);
    let ghost st1: DfsState = (visited@, sorted@);
    assert(st1 == (old(visited)@.update(index as int, 1), old(sorted)@));
    let ghost path = stack.push(index);
    assert(dfs_inv(g, visited@, sorted@, path)) by {
        assert forall|x: usize| x < n && visited@[x as int] == 1 implies #[trigger] path.contains(x) by {
            if x != index {
                assert(stack.contains(x));
                let j = stack.index_of(x);
                assert(path[j] == x);
            } else {
                assert(path[path.len() - 1] == x);
            }
        }
    }
    let m = deps[index].len();
    assert(g[index as int] == deps@[index as int]@);
    for k in 0..m
        invariant
            g == rows(deps@),
            n == deps@.len(),
            valid_deps(g),
            index < n,
            m == g[index as int].len(),
            path == stack.push(index),
            stack.len() == 0 || depends(g, stack.last(), index),
            dfs_inv(g, visited@, sorted@, path),
            visited@[index as int] == 1,
            sorted@.len() >= old(sorted)@.len(),
            sorted@.take(old(sorted)@.len() as int) == old(sorted)@,
            forall|x: int| 0 <= x < n && old(visited)@[x] == 2 ==> #[trigger] visited@[x] == 2,
            forall|j: int| 0 <= j < k ==> visited@[#[trigger] g[index as int][j] as int] == 2,
            old(sorted)@.len() + stack.len() < n,
            fuel == n - stack.len(),
            fuel > 0,
            dfs_visit_deps(g, st1, index, 0, (fuel - 1) as nat)
                == dfs_visit_deps(g, (visited@, sorted@), index, k as nat, (fuel - 1) as nat),
            st1 == (old(visited)@.update(index as int, 1), old(sorted)@),
            old(visited)@[index as int] != 2,
    {
        let dep = deps[index][k];
        assert(g[index as int][k as int] == dep);
        assert(depends(g, index, dep));
        let ghost cur: DfsState = (visited@, sorted@);
        let state = visited[dep];
        if state == 1 {
            assert(path.contains(dep));
            let ghost j = path.index_of(dep);
            let ghost cycle = path.subrange(j, path.len() as int);
            assert(is_dep_path(g, cycle)) by {
                assert forall|t: int| 0 <= t < cycle.len() - 1 implies #[trigger] depends(g, cycle[t], cycle[t + 1]) by {
                    assert(cycle[t] == path[j + t]);
                    assert(cycle[t + 1] == path[j + t + 1]);
                }
            }
            assert(cycle[0] == dep);
            assert(cycle.last() == index);
            return Err((index, dep));
        } else if state == 0 {
            proof {
                lemma_count_total(visited@);
                lemma_count_positive(visited@, dep as int, 0);
            }
            let ghost mid = sorted@;
            match visit(dep, deps, sorted, visited, Ghost(path)) {
                Ok(()) => {
                    assert(path[path.len() - 1] == index);
                    assert(sorted@.take(old(sorted)@.len() as int) =~= mid.take(old(sorted)@.len() as int));
                    assert(dfs_visit_deps(g, cur, index, k as nat, (fuel - 1) as nat)
                        == dfs_visit_deps(g, (visited@, sorted@), index, (k + 1) as nat, (fuel - 1) as nat));
                },
                Err(e) => {
                    return Err(e);
                },
            }
        }
    }
    proof {
        lemma_count_update(visited@, index as int, 2, 1);
        lemma_count_update(visited@, index as int, 2, 2);
    }
    let ghost vis_before = visited@;
    visited.set(index, 2);
    let ghost before = sorted@;
    sorted.push(index);
    assert(!before.contains(index));
    assert(sorted@.no_duplicates());
    assert forall|k: int| 0 <= k < stack.len() implies visited@[#[trigger] stack[k] as int] == 1 by {
        assert(path[k] == stack[k]);
        assert(old(visited)@[stack[k] as int] == 1);
    }
    assert(dfs_inv(g, visited@, sorted@, stack)) by {
        assert forall|p: int, q: int|
            0 <= p < sorted@.len() && 0 <= q < sorted@.len() && #[trigger] depends(g, sorted@[p], sorted@[q])
            implies q < p by {
            if p == sorted@.len() - 1 {
                let t = g[index as int].index_of(sorted@[q]);
                assert(vis_before[g[index as int][t] as int] == 2);
            } else if q == sorted@.len() - 1 {
                assert(vis_before[before[p] as int] == 2);
                assert(depends(g, before[p], index));
            } else {
                assert(depends(g, before[p], before[q]));
            }
        }
        assert forall|x: usize| x < n && visited@[x as int] == 2 implies #[trigger] sorted@.contains(x) by {
            if x != index {
                assert(before.contains(x));
                let j = before.index_of(x);
                assert(sorted@[j] == x);
            } else {
                assert(sorted@[sorted@.len() - 1] == x);
            }
        }
        assert forall|x: usize, d: usize|
            x < n && visited@[x as int] == 2 && #[trigger] depends(g, x, d) implies visited@[d as int] == 2 by {
            if x == index {
                let t = g[index as int].index_of(d);
                assert(vis_before[g[index as int][t] as int] == 2);
            } else {
                assert(vis_before[x as int] == 2);
            }
        }
        assert forall|x: usize| x < n && visited@[x as int] == 1 implies #[trigger] stack.contains(x) by {
            assert(path.contains(x));
            let j = path.index_of(x);
            assert(j < stack.len());
            assert(stack[j] == x);
        }
    }
    assert(sorted@.take(old(sorted)@.len() as int) == before.take(old(sorted)@.len() as int));
    Ok(())
}

/// Along a walk through the graph, each plugin is placed after the next one
/// by any order that respects the dependencies.
proof fn lemma_path_descends(order: Seq<usize>, deps: Seq<Seq<usize>>, p: Seq<usize>)
    requires
        is_order_of(order, deps.len()),
        respects_deps(order, deps),
        is_dep_path(deps, p),
        p.len() > 1,
    ensures
        order.index_of(p.last()) < order.index_of(p[0]),
    decreases p.len(),
{
    let q = p.drop_last();
    let a = p[p.len() - 2];
    let b = p.last();
    assert(order.contains(a));
    assert(order.contains(b));
    let ia = order.index_of(a);
    let ib = order.index_of(b);
    let last = p.len() - 2;
    assert(depends(deps, p[last], p[last + 1]));
    assert(depends(deps, order[ia], order[ib]));
    if q.len() > 1 {
        assert(is_dep_path(deps, q)) by {
            assert forall|k: int| 0 <= k < q.len() - 1 implies #[trigger] depends(deps, q[k], q[k + 1]) by {
                assert(depends(deps, p[k], p[k + 1]));
            }
        }
        lemma_path_descends(order, deps, q);
    }
}

/// A graph with an order that respects its dependencies has no cycle.
pub proof fn lemma_ordered_graph_is_acyclic(order: Seq<usize>, deps: Seq<Seq<usize>>)
    requires
        is_order_of(order, deps.len()),
        respects_deps(order, deps),
    ensures
        !has_cycle(deps),
{
    if has_cycle(deps) {
        let p = choose|p: Seq<usize>| #[trigger] is_dep_path(deps, p) && p.len() > 1 && p[0] == p.last();
        lemma_path_descends(order, deps, p);
    }
}

/// Orders the plugins `0..deps.len()` so that each comes after every plugin
/// it depends on, visiting them depth first in index order. On a cycle,
/// returns the plugin being visited and the dependency that closes it.
pub fn sort_dependencies(deps: &Vec<Vec<usize>>) -> (r: Result<Vec<usize>, (usize, usize)>)
    requires
        valid_deps(rows(deps@)),
    ensures
        r matches Ok(order) ==> is_order_of(order@, deps@.len()) && respects_deps(order@, rows(deps@)),
        r matches Err((a, b)) ==> {
            &&& a < deps@.len()
            &&& depends(rows(deps@), a, b)
            &&& exists|p: Seq<usize>| #[trigger] is_dep_path(rows(deps@), p) && p[0] == b && p.last() == a
        },
        r is Ok <==> !has_cycle(rows(deps@)),
        r matches Ok(order) ==> dfs_order(rows(deps@)) == Ok::<Seq<usize>, (usize, usize)>(order@),
        r matches Err(e) ==> dfs_order(rows(deps@)) == Err::<Seq<usize>, (usize, usize)>(e),
{
    let ghost g = rows(deps@);
    let n = deps.len();
    let mut sorted: Vec<usize> = Vec::new();
    let mut visited: Vec<u8> = Vec::new();
    for i in 0..n
        invariant
            n == deps@.len(),
            visited@.len() == i,
            forall|x: int| 0 <= x < i ==> #[trigger] visited@[x] == 0,
            count(visited@, 0) == i,
            count(visited@, 1) == 0,
            count(visited@, 2) == 0,
    {
        let ghost prev = visited@;
        visited.push(0);
        assert(visited@.drop_last() == prev);
    }
    assert(dfs_inv(g, visited@, sorted@, Seq::empty()));
    let ghost start: DfsState = (visited@, sorted@);
    assert(start == (Seq::new(g.len(), |_i: int| 0u8), Seq::<usize>::empty()));
    for i in 0..n
        invariant
            g == rows(deps@),
            n == deps@.len(),
            valid_deps(g),
            dfs_inv(g, visited@, sorted@, Seq::empty()),
            forall|x: int| 0 <= x < i ==> #[trigger] visited@[x] == 2,
            dfs_order(g) == match dfs_visit_from(g, (visited@, sorted@), i as nat) {
                Ok(st) => Ok::<Seq<usize>, (usize, usize)>(st.1),
                Err(e) => Err(e),
            },
    {
        let ghost cur: DfsState = (visited@, sorted@);
        proof {
            if visited@[i as int] == 1 {
                lemma_count_positive(visited@, i as int, 1);
            }
        }
        match visit(i, deps, &mut sorted, &mut visited, Ghost(Seq::empty())) {
            Ok(()) => {
                assert(dfs_visit_from(g, cur, i as nat) == dfs_visit_from(g, (visited@, sorted@), (i + 1) as nat));
            },
            Err((a, b)) => {
                proof {
                    let p = choose|p: Seq<usize>| #[trigger] is_dep_path(g, p) && p[0] == b && p.last() == a;
                    let cycle = seq![a].add(p);
                    assert(is_dep_path(g, cycle)) by {
                        assert forall|k: int| 0 <= k < cycle.len() - 1 implies #[trigger] depends(g, cycle[k], cycle[k + 1]) by {
                            if k > 0 {
                                let j = k - 1;
                                assert(depends(g, p[j], p[j + 1]));
                                assert(cycle[k] == p[j]);
                                assert(cycle[k + 1] == p[j + 1]);
                            }
                        }
                    }
                    assert(cycle.last() == a);
                }
                return Err((a, b));
            },
        }
    }
    proof {
        assert forall|x: usize| x < n implies #[trigger] sorted@.contains(x) by {
            assert(visited@[x as int] == 2);
        }
        lemma_count_total(visited@);
        assert forall|x: int| 0 <= x < n implies #[trigger] visited@[x] != 0 by {}
        lemma_no_zero_count(visited@);
        lemma_ordered_graph_is_acyclic(sorted@, g);
    }
    Ok(sorted)
}

proof fn lemma_no_zero_count(v: Seq<u8>)
    requires
        forall|x: int| 0 <= x < v.len() ==> #[trigger] v[x] != 0,
    ensures
        count(v, 0) == 0,
    decreases v.len(),
{
    if v.len() > 0 {
        lemma_no_zero_count(v.drop_last());
    }
}

/// Why the plugins cannot be put in order.
pub enum PluginError {
    /// `plugin` names, to run before or after it, a plugin that is not registered.
    UnknownDependency { plugin: String, dependency: String },
    /// `plugin` depends, through the plugin at index `dependency_index`, on itself.
    CircularDependency { plugin: String, dependency_index: usize },
}

/// The index of the last plugin whose key is `name`.
pub open spec fn lookup_key(keys: Seq<Seq<char>>, name: Seq<char>) -> Option<usize>
    decreases keys.len(),
{
    if keys.len() == 0 {
        None
    } else if keys.last() == name {
        Some((keys.len() - 1) as usize)
    } else {
        lookup_key(keys.drop_last(), name)
    }
}

/// The indices of the plugins named by `names`, or `None` if one is unknown.
pub open spec fn resolve_names(keys: Seq<Seq<char>>, names: Seq<Seq<char>>) -> Option<Seq<usize>>
    decreases names.len(),
{
    if names.len() == 0 {
        Some(Seq::empty())
    } else {
        match resolve_names(keys, names.drop_last()) {
            None => None,
            Some(r) => match lookup_key(keys, names.last()) {
                None => None,
                Some(j) => Some(r.push(j)),
            },
        }
    }
}

/// The first of `names` that names no plugin.
pub open spec fn first_unknown(keys: Seq<Seq<char>>, names: Seq<Seq<char>>) -> Seq<char>
    decreases names.len(),
{
    if names.len() == 0 {
        Seq::empty()
    } else if resolve_names(keys, names.drop_last()) is None {
        first_unknown(keys, names.drop_last())
    } else {
        names.last()
    }
}

/// Records that each plugin of `dependents` depends on plugin `i`.
pub open spec fn add_dependents(deps: Seq<Seq<usize>>, dependents: Seq<usize>, i: usize) -> Seq<Seq<usize>>
    decreases dependents.len(),
{
    if dependents.len() == 0 {
        deps
    } else {
        let d = add_dependents(deps, dependents.drop_last(), i);
        let b = dependents.last() as int;
        d.update(b, d[b].push(i))
    }
}

/// The dependencies of each plugin after reading the declarations of the
/// first `count` plugins, in order: plugin `i` depends on each plugin named
/// in `afters[i]`, and each plugin named in `befores[i]` depends on `i`. An
/// unknown name is reported with the plugin that declares it.
pub open spec fn collect_deps(
    keys: Seq<Seq<char>>,
    befores: Seq<Seq<Seq<char>>>,
    afters: Seq<Seq<Seq<char>>>,
    count: nat,
) -> Result<Seq<Seq<usize>>, (Seq<char>, Seq<char>)>
    decreases count,
{
    if count == 0 {
        Ok(Seq::new(keys.len(), |_i: int| Seq::<usize>::empty()))
    } else {
        let i = count - 1;
        match collect_deps(keys, befores, afters, (count - 1) as nat) {
            Err(e) => Err(e),
            Ok(d) => match resolve_names(keys, afters[i]) {
                None => Err((keys[i], first_unknown(keys, afters[i]))),
                Some(a) => match resolve_names(keys, befores[i]) {
                    None => Err((keys[i], first_unknown(keys, befores[i]))),
                    Some(b) => Ok(add_dependents(d.update(i, d[i] + a), b, i as usize)),
                },
            },
        }
    }
}

proof fn lemma_lookup_bound(keys: Seq<Seq<char>>, name: Seq<char>)
    requires
        keys.len() <= usize::MAX,
    ensures
        lookup_key(keys, name) matches Some(j) ==> j < keys.len() && keys[j as int] == name,
    decreases keys.len(),
{
    if keys.len() > 0 {
        lemma_lookup_bound(keys.drop_last(), name);
        if let Some(j) = lookup_key(keys.drop_last(), name) {
            assert(keys.drop_last()[j as int] == keys[j as int]);
        }
    }
}

proof fn lemma_resolve_step(keys: Seq<Seq<char>>, names: Seq<Seq<char>>, k: int)
    requires
        0 <= k < names.len(),
        resolve_names(keys, names.take(k)) is Some,
    ensures
        lookup_key(keys, names[k]) matches Some(j) ==>
            resolve_names(keys, names.take(k + 1)) == Some(resolve_names(keys, names.take(k))->0.push(j)),
        lookup_key(keys, names[k]) is None ==>
            resolve_names(keys, names) is None && first_unknown(keys, names) == names[k],
    decreases names.len(),
{
    assert(names.take(k + 1).drop_last() == names.take(k));
    if lookup_key(keys, names[k]) is None {
        if k == names.len() - 1 {
            assert(names.drop_last() == names.take(k));
        } else {
            let shorter = names.drop_last();
            assert(shorter.take(k) == names.take(k));
            lemma_resolve_step(keys, shorter, k);
        }
    }
}

/// Resolving a list of names resolves each of them, in order.
proof fn lemma_resolve_each(keys: Seq<Seq<char>>, names: Seq<Seq<char>>)
    ensures
        resolve_names(keys, names) matches Some(b) ==> {
            &&& b.len() == names.len()
            &&& forall|k: int| 0 <= k < names.len() ==> #[trigger] lookup_key(keys, names[k]) == Some(b[k])
        },
    decreases names.len(),
{
    if names.len() > 0 {
        let rest = names.drop_last();
        lemma_resolve_each(keys, rest);
        if let Some(b) = resolve_names(keys, names) {
            let r = resolve_names(keys, rest)->0;
            assert forall|k: int| 0 <= k < names.len() implies #[trigger] lookup_key(keys, names[k]) == Some(b[k]) by {
                if k < names.len() - 1 {
                    assert(rest[k] == names[k]);
                    assert(lookup_key(keys, rest[k]) == Some(r[k]));
                }
            }
        }
    }
}

/// Recording dependents only adds: each plugin keeps the dependencies it
/// had, and each dependent in `dependents` gains `i`.
proof fn lemma_add_dependents(deps: Seq<Seq<usize>>, dependents: Seq<usize>, i: usize)
    requires
        forall|k: int| 0 <= k < dependents.len() ==> #[trigger] dependents[k] < deps.len(),
    ensures
        add_dependents(deps, dependents, i).len() == deps.len(),
        forall|m: int, v: usize| 0 <= m < deps.len() && #[trigger] deps[m].contains(v)
            ==> add_dependents(deps, dependents, i)[m].contains(v),
        forall|k: int| 0 <= k < dependents.len()
            ==> #[trigger] add_dependents(deps, dependents, i)[dependents[k] as int].contains(i),
    decreases dependents.len(),
{
    if dependents.len() > 0 {
        let rest = dependents.drop_last();
        lemma_add_dependents(deps, rest, i);
        let d = add_dependents(deps, rest, i);
        let b = dependents.last() as int;
        let out = add_dependents(deps, dependents, i);
        assert(out == d.update(b, d[b].push(i)));
        assert(out[b][d[b].len() as int] == i);
        assert forall|m: int, v: usize| 0 <= m < deps.len() && #[trigger] deps[m].contains(v) implies out[m].contains(v) by {
            assert(d[m].contains(v));
            if m == b {
                let x = choose|x: int| 0 <= x < d[m].len() && d[m][x] == v;
                assert(out[m][x] == v);
            }
        }
        assert forall|k: int| 0 <= k < dependents.len() implies #[trigger] out[dependents[k] as int].contains(i) by {
            if k < dependents.len() - 1 {
                assert(rest[k] == dependents[k]);
                let m = dependents[k] as int;
                assert(d[m].contains(i));
                if m == b {
                    let x = choose|x: int| 0 <= x < d[m].len() && d[m][x] == i;
                    assert(out[m][x] == i);
                }
            }
        }
    }
}

/// Every declaration becomes a dependency, whatever its place in its list:
/// once the declarations of the first `count` plugins are read, each name in
/// `befores[i]` names a plugin `j` that depends on `i`, and each name in
/// `afters[i]` names a plugin that `i` depends on.
pub proof fn lemma_declarations_become_dependencies(
    keys: Seq<Seq<char>>,
    befores: Seq<Seq<Seq<char>>>,
    afters: Seq<Seq<Seq<char>>>,
    count: nat,
)
    requires
        count <= keys.len(),
        keys.len() <= usize::MAX,
        befores.len() == keys.len(),
        afters.len() == keys.len(),
    ensures
        collect_deps(keys, befores, afters, count) matches Ok(d) ==> {
            &&& d.len() == keys.len()
            &&& forall|i: int, k: int| 0 <= i < count && 0 <= k < befores[i].len()
                ==> (#[trigger] lookup_key(keys, befores[i][k]) matches Some(j) && d[j as int].contains(i as usize))
            &&& forall|i: int, k: int| 0 <= i < count && 0 <= k < afters[i].len()
                ==> (#[trigger] lookup_key(keys, afters[i][k]) matches Some(j) && d[i].contains(j))
        },
    decreases count,
{
    if count > 0 {
        let i = count - 1;
        lemma_declarations_become_dependencies(keys, befores, afters, (count - 1) as nat);
        if let Ok(d) = collect_deps(keys, befores, afters, count) {
            let dp = collect_deps(keys, befores, afters, (count - 1) as nat)->Ok_0;
            let a = resolve_names(keys, afters[i])->Some_0;
            let b = resolve_names(keys, befores[i])->Some_0;
            lemma_resolve_each(keys, afters[i]);
            lemma_resolve_each(keys, befores[i]);
            let up = dp.update(i, dp[i] + a);
            assert(dp.len() == keys.len());
            assert(up.len() == dp.len());
            assert forall|k: int| 0 <= k < b.len() implies #[trigger] b[k] < up.len() by {
                assert(lookup_key(keys, befores[i][k]) == Some(b[k]));
                lemma_lookup_bound(keys, befores[i][k]);
            }
            lemma_add_dependents(up, b, i as usize);
            assert(d == add_dependents(up, b, i as usize));
            assert forall|m: int, v: usize| 0 <= m < dp.len() && #[trigger] dp[m].contains(v) implies d[m].contains(v) by {
                let x = choose|x: int| 0 <= x < dp[m].len() && dp[m][x] == v;
                assert(up[m][x] == v);
                assert(up[m].contains(v));
            }
            assert forall|k: int| 0 <= k < a.len() implies #[trigger] d[i].contains(a[k]) by {
                assert(up[i][dp[i].len() + k] == a[k]);
                assert(up[i].contains(a[k]));
            }
            assert forall|ii: int, k: int| 0 <= ii < count && 0 <= k < befores[ii].len()
                implies (#[trigger] lookup_key(keys, befores[ii][k]) matches Some(j) && d[j as int].contains(ii as usize)) by {
                if ii == i {
                    assert(lookup_key(keys, befores[i][k]) == Some(b[k]));
                    assert(d[b[k] as int].contains(i as usize));
                } else {
                    let j = lookup_key(keys, befores[ii][k])->Some_0;
                    lemma_lookup_bound(keys, befores[ii][k]);
                    assert(dp[j as int].contains(ii as usize));
                }
            }
            assert forall|ii: int, k: int| 0 <= ii < count && 0 <= k < afters[ii].len()
                implies (#[trigger] lookup_key(keys, afters[ii][k]) matches Some(j) && d[ii].contains(j)) by {
                if ii == i {
                    assert(lookup_key(keys, afters[i][k]) == Some(a[k]));
                    assert(d[i].contains(a[k]));
                } else {
                    let j = lookup_key(keys, afters[ii][k])->Some_0;
                    assert(dp[ii].contains(j));
                }
            }
        }
    } else {
        assert(collect_deps(keys, befores, afters, 0) == Ok::<Seq<Seq<usize>>, (Seq<char>, Seq<char>)>(
            Seq::new(keys.len(), |_i: int| Seq::<usize>::empty())));
    }
}

/// Finds the plugin named `name`: the last one registered under that key.
fn lookup_plugin(keys: &Vec<String>, name: &String) -> (r: Option<usize>)
    ensures
        r == lookup_key(keys.deep_view(), name@),
{
    let ghost kv = keys.deep_view();
    let mut i = keys.len();
    assert(kv.take(i as int) == kv);
    while i > 0
        invariant
            kv == keys.deep_view(),
            i <= keys@.len(),
            lookup_key(kv, name@) == lookup_key(kv.take(i as int), name@),
        decreases i,
    {
        let ghost t = kv.take(i as int);
        assert(t.drop_last() == kv.take(i - 1));
        assert(t.last() == keys@[i - 1]@);
        if keys[i - 1] == *name {
            return Some(i - 1);
        }
        i = i - 1;
    }
    assert(kv.take(0) == Seq::<Seq<char>>::empty());
    None
}

proof fn lemma_collect_err_persists(
    keys: Seq<Seq<char>>,
    befores: Seq<Seq<Seq<char>>>,
    afters: Seq<Seq<Seq<char>>>,
    count: nat,
    later: nat,
)
    requires
        count <= later,
        collect_deps(keys, befores, afters, count) is Err,
    ensures
        collect_deps(keys, befores, afters, later) == collect_deps(keys, befores, afters, count),
    decreases later,
{
    if later > count {
        lemma_collect_err_persists(keys, befores, afters, count, (later - 1) as nat);
    }
}

/// The dependencies of each plugin, read from the plugins' keys and their
/// `before` and `after` declarations: plugin `i` depends on each plugin named
/// in `afters[i]`, and each plugin named in `befores[i]` depends on `i`. A
/// name refers to the last plugin registered under that key.
pub fn collect_dependencies(
    keys: &Vec<String>,
    befores: &Vec<Vec<String>>,
    afters: &Vec<Vec<String>>,
) -> (r: Result<Vec<Vec<usize>>, PluginError>)
    requires
        befores@.len() == keys@.len(),
        afters@.len() == keys@.len(),
    ensures
        match collect_deps(keys.deep_view(), befores.deep_view(), afters.deep_view(), keys@.len() as nat) {
            Ok(d) => r matches Ok(deps) && rows(deps@) == d && valid_deps(d),
            Err((p, q)) => r matches Err(PluginError::UnknownDependency { plugin, dependency })
                && plugin@ == p && dependency@ == q,
        },
        r matches Ok(deps) ==> deps@.len() == keys@.len(),
        r matches Ok(deps) ==> forall|i: int, k: int|
            0 <= i < keys@.len() && 0 <= k < befores.deep_view()[i].len()
                ==> (#[trigger] lookup_key(keys.deep_view(), befores.deep_view()[i][k]) matches Some(j)
                    && rows(deps@)[j as int].contains(i as usize)),
        r matches Ok(deps) ==> forall|i: int, k: int|
            0 <= i < keys@.len() && 0 <= k < afters.deep_view()[i].len()
                ==> (#[trigger] lookup_key(keys.deep_view(), afters.deep_view()[i][k]) matches Some(j)
                    && rows(deps@)[i].contains(j)),
{
    let ghost kv = keys.deep_view();
    let ghost bv = befores.deep_view();
    let ghost av = afters.deep_view();
    let n = keys.len();
    let mut deps: Vec<Vec<usize>> = Vec::new();
    for i in 0..n
        invariant
            deps@.len() == i,
            rows(deps@) == Seq::new(i as nat, |_i: int| Seq::<usize>::empty()),
    {
        let empty: Vec<usize> = Vec::new();
        let ghost prev = deps@;
        deps.push(empty);
        assert(deps@[i as int]@ == Seq::<usize>::empty());
        assert forall|t: int| 0 <= t < i implies #[trigger] deps@[t]@ == Seq::<usize>::empty() by {
            assert(deps@[t] == prev[t]);
            assert(rows(prev)[t] == prev[t]@);
        }
        assert(rows(deps@) =~= Seq::new((i + 1) as nat, |_i: int| Seq::<usize>::empty()));
    }
    assert(rows(deps@) =~= Seq::new(n as nat, |_i: int| Seq::<usize>::empty()));
    assert(collect_deps(kv, bv, av, 0) == Ok::<Seq<Seq<usize>>, (Seq<char>, Seq<char>)>(rows(deps@)));
    for i in 0..n
        invariant
            kv == keys.deep_view(),
            bv == befores.deep_view(),
            av == afters.deep_view(),
            n == keys@.len(),
            befores@.len() == n,
            afters@.len() == n,
            collect_deps(kv, bv, av, i as nat) == Ok::<Seq<Seq<usize>>, (Seq<char>, Seq<char>)>(rows(deps@)),
            deps@.len() == n,
            valid_deps(rows(deps@)),
    {
        let ghost base = rows(deps@);
        let ghost mut found: Seq<usize> = Seq::empty();
        let m = afters[i].len();
        assert(av[i as int] == afters@[i as int].deep_view());
        assert(av[i as int].take(0) == Seq::<Seq<char>>::empty());
        for k in 0..m
            invariant
                kv == keys.deep_view(),
                av == afters.deep_view(),
                n == keys@.len(),
                i < n,
                afters@.len() == n,
                m == av[i as int].len(),
                deps@.len() == n,
                base.len() == n,
                bv == befores.deep_view(),
                befores@.len() == n,
                collect_deps(kv, bv, av, i as nat) == Ok::<Seq<Seq<usize>>, (Seq<char>, Seq<char>)>(base),
                resolve_names(kv, av[i as int].take(k as int)) == Some(found),
                rows(deps@) == base.update(i as int, base[i as int] + found),
                valid_deps(base),
                forall|t: int| 0 <= t < found.len() ==> #[trigger] found[t] < n,
        {
            let ghost name = av[i as int][k as int];
            assert(afters@[i as int]@[k as int]@ == name);
            proof {
                lemma_resolve_step(kv, av[i as int], k as int);
                lemma_lookup_bound(kv, name);
            }
            match lookup_plugin(keys, &afters[i][k]) {
                None => {
                    proof {
                        assert(resolve_names(kv, av[i as int]) is None);
                        assert(collect_deps(kv, bv, av, (i + 1) as nat) == Err::<Seq<Seq<usize>>, (Seq<char>, Seq<char>)>((kv[i as int], name)));
                        lemma_collect_err_persists(kv, bv, av, (i + 1) as nat, n as nat);
                        assert(kv[i as int] == keys@[i as int]@);
                    }
                    return Err(PluginError::UnknownDependency {
                        plugin: keys[i].clone(),
                        dependency: afters[i][k].clone(),
                    });
                },
                Some(j) => {
                    let ghost prev = deps@;
                    let ghost old_found = found;
                    deps[i].push(j);
                    proof {
                        found = found.push(j);
                        assert(rows(deps@)[i as int] == rows(prev)[i as int].push(j));
                        assert(base[i as int] + found =~= (base[i as int] + old_found).push(j));
                        assert(rows(prev) == base.update(i as int, base[i as int] + old_found));
                        assert forall|x: int| 0 <= x < n && x != i implies #[trigger] rows(deps@)[x] == base[x] by {
                            assert(deps@[x] == prev[x]);
                            assert(rows(prev)[x] == base[x]);
                        }
                        assert(rows(deps@) =~= base.update(i as int, base[i as int] + found));
                    }
                },
            }
        }
        assert(av[i as int].take(m as int) == av[i as int]);
        let ghost after_found = found;
        let ghost mid = rows(deps@);
        assert(valid_deps(mid));
        let ghost mut dependents: Seq<usize> = Seq::empty();
        let mb = befores[i].len();
        assert(bv[i as int] == befores@[i as int].deep_view());
        assert(bv[i as int].take(0) == Seq::<Seq<char>>::empty());
        for k in 0..mb
            invariant
                kv == keys.deep_view(),
                bv == befores.deep_view(),
                n == keys@.len(),
                i < n,
                befores@.len() == n,
                mb == bv[i as int].len(),
                deps@.len() == n,
                mid.len() == n,
                av == afters.deep_view(),
                afters@.len() == n,
                collect_deps(kv, bv, av, i as nat) == Ok::<Seq<Seq<usize>>, (Seq<char>, Seq<char>)>(base),
                resolve_names(kv, av[i as int]) == Some(after_found),
                mid == base.update(i as int, base[i as int] + after_found),
                resolve_names(kv, bv[i as int].take(k as int)) == Some(dependents),
                rows(deps@) == add_dependents(mid, dependents, i),
                valid_deps(rows(deps@)),
                forall|t: int| 0 <= t < dependents.len() ==> #[trigger] dependents[t] < n,
        {
            let ghost name = bv[i as int][k as int];
            assert(befores@[i as int]@[k as int]@ == name);
            proof {
                lemma_resolve_step(kv, bv[i as int], k as int);
                lemma_lookup_bound(kv, name);
            }
            match lookup_plugin(keys, &befores[i][k]) {
                None => {
                    proof {
                        assert(resolve_names(kv, bv[i as int]) is None);
                        assert(resolve_names(kv, av[i as int]) == Some(after_found));
                        assert(collect_deps(kv, bv, av, (i + 1) as nat) == Err::<Seq<Seq<usize>>, (Seq<char>, Seq<char>)>((kv[i as int], name)));
                        lemma_collect_err_persists(kv, bv, av, (i + 1) as nat, n as nat);
                        assert(kv[i as int] == keys@[i as int]@);
                    }
                    return Err(PluginError::UnknownDependency {
                        plugin: keys[i].clone(),
                        dependency: befores[i][k].clone(),
                    });
                },
                Some(j) => {
                    let ghost prev = rows(deps@);
                    let ghost old_dependents = dependents;
                    deps[j].push(i);
                    proof {
                        dependents = dependents.push(j);
                        assert(dependents.drop_last() == old_dependents);
                        assert(rows(deps@) =~= prev.update(j as int, prev[j as int].push(i)));
                        assert(valid_deps(rows(deps@))) by {
                            assert forall|x: int, t: int|
                                0 <= x < rows(deps@).len() && 0 <= t < rows(deps@)[x].len()
                                implies #[trigger] rows(deps@)[x][t] < rows(deps@).len() by {
                                if x == j && t == prev[x].len() {
                                } else {
                                    assert(rows(deps@)[x][t] == prev[x][t]);
                                }
                            }
                        }
                    }
                },
            }
        }
        assert(bv[i as int].take(mb as int) == bv[i as int]);
    }
    proof {
        lemma_declarations_become_dependencies(kv, bv, av, n as nat);
    }
    Ok(deps)
}

/// A plugin is added to a layer and allows logic to be added using the ECS.
/// It is known by its key and may ask to run before or after other plugins,
/// named by their keys.
pub trait Plugin {
    /// Whether this plugin states its key and declarations as the three
    /// spec functions below give them. A plugin that states nothing keeps
    /// the default, and its methods are then held to nothing.
    open spec fn states_declarations(&self) -> bool {
        false
    }

    /// The key this plugin gives, where it states it.
    open spec fn spec_key(&self) -> Seq<char> {
        Seq::empty()
    }

    /// The keys this plugin runs before, where it states them.
    open spec fn spec_before(&self) -> Seq<Seq<char>> {
        Seq::empty()
    }

    /// The keys this plugin runs after, where it states them.
    open spec fn spec_after(&self) -> Seq<Seq<char>> {
        Seq::empty()
    }

    /// The key by which other plugins name this one.
    fn key(&self) -> (r: String)
        ensures
            self.states_declarations() ==> r@ == self.spec_key(),
    ;

    /// Keys of the plugins this plugin runs before.
    fn before(&self) -> (r: Vec<String>)
        ensures
            self.states_declarations() ==> r.deep_view() == self.spec_before(),
    ;

    /// Keys of the plugins this plugin runs after.
    fn after(&self) -> (r: Vec<String>)
        ensures
            self.states_declarations() ==> r.deep_view() == self.spec_after(),
    ;
}

/// The keys and declarations were read from `plugins`, one for one: each
/// plugin that states its declarations gave those it states.
pub open spec fn read_from(
    plugins: Seq<Box<dyn Plugin>>,
    keys: Seq<Seq<char>>,
    befores: Seq<Seq<Seq<char>>>,
    afters: Seq<Seq<Seq<char>>>,
) -> bool {
    &&& keys.len() == plugins.len()
    &&& befores.len() == plugins.len()
    &&& afters.len() == plugins.len()
    &&& forall|i: int| 0 <= i < plugins.len() && (#[trigger] plugins[i]).states_declarations() ==> {
        &&& keys[i] == plugins[i].spec_key()
        &&& befores[i] == plugins[i].spec_before()
        &&& afters[i] == plugins[i].spec_after()
    }
}

/// The result of ordering plugins with these keys and declarations: the
/// first name that no plugin has is an unknown dependency; otherwise the
/// depth-first order of the dependencies, or the cycle it meets, reported
/// as the key of the plugin being visited and the index of its dependency.
pub open spec fn declared_order(
    keys: Seq<Seq<char>>,
    befores: Seq<Seq<Seq<char>>>,
    afters: Seq<Seq<Seq<char>>>,
    r: Result<Vec<usize>, PluginError>,
) -> bool {
    match collect_deps(keys, befores, afters, keys.len()) {
        Err((p, q)) => r matches Err(PluginError::UnknownDependency { plugin, dependency })
            && plugin@ == p && dependency@ == q,
        Ok(d) => match dfs_order(d) {
            Ok(o) => r matches Ok(order) && order@ == o,
            Err((a, b)) => r matches Err(PluginError::CircularDependency { plugin, dependency_index })
                && plugin@ == keys[a as int] && dependency_index == b,
        },
    }
}

/// In `order`, plugin `a` is installed before plugin `b`.
pub open spec fn comes_before(order: Seq<usize>, a: usize, b: usize) -> bool {
    forall|p: int, q: int|
        0 <= p < order.len() && 0 <= q < order.len() && #[trigger] order[p] == a && #[trigger] order[q] == b ==> p < q
}

/// The plugin with key `plugin` depends on the plugin at index `dependency`,
/// which depends, directly or through others, on it.
pub open spec fn closes_cycle(keys: Seq<Seq<char>>, deps: Seq<Seq<usize>>, plugin: Seq<char>, dependency: usize) -> bool {
    exists|a: usize| {
        &&& a < keys.len()
        &&& keys[a as int] == plugin
        &&& #[trigger] depends(deps, a, dependency)
        &&& exists|p: Seq<usize>| #[trigger] is_dep_path(deps, p) && p[0] == dependency && p.last() == a
    }
}

/// Puts plugins, given by their keys and their `before` and `after`
/// declarations, in an order where each plugin comes after every plugin it
/// depends on (see [`collect_dependencies`]), visiting the plugins depth
/// first in index order.
pub fn sort_declared_plugins(
    keys: &Vec<String>,
    befores: &Vec<Vec<String>>,
    afters: &Vec<Vec<String>>,
) -> (r: Result<Vec<usize>, PluginError>)
    requires
        befores@.len() == keys@.len(),
        afters@.len() == keys@.len(),
    ensures
        collect_deps(keys.deep_view(), befores.deep_view(), afters.deep_view(), keys@.len() as nat) matches Err((p, q))
            ==> r matches Err(PluginError::UnknownDependency { plugin, dependency }) && plugin@ == p && dependency@ == q,
        collect_deps(keys.deep_view(), befores.deep_view(), afters.deep_view(), keys@.len() as nat) matches Ok(d)
            ==> d.len() == keys@.len() && (r is Ok <==> !has_cycle(d)),
        collect_deps(keys.deep_view(), befores.deep_view(), afters.deep_view(), keys@.len() as nat) matches Ok(d)
            ==> (r matches Ok(order) ==> is_order_of(order@, keys@.len() as nat) && respects_deps(order@, d)),
        collect_deps(keys.deep_view(), befores.deep_view(), afters.deep_view(), keys@.len() as nat) matches Ok(d)
            ==> (r matches Err(e) ==> e matches PluginError::CircularDependency { plugin, dependency_index }
                && closes_cycle(keys.deep_view(), d, plugin@, dependency_index)),
        collect_deps(keys.deep_view(), befores.deep_view(), afters.deep_view(), keys@.len() as nat) matches Ok(d)
            ==> (dfs_order(d) matches Ok(o) ==> (r matches Ok(order) && order@ == o)),
        collect_deps(keys.deep_view(), befores.deep_view(), afters.deep_view(), keys@.len() as nat) matches Ok(d)
            ==> (dfs_order(d) matches Err((a, b)) ==> (r matches Err(PluginError::CircularDependency { plugin, dependency_index })
                && plugin@ == keys.deep_view()[a as int] && dependency_index == b)),
        declared_order(keys.deep_view(), befores.deep_view(), afters.deep_view(), r),
        r matches Ok(order) ==> forall|i: int, k: int|
            0 <= i < keys@.len() && 0 <= k < befores.deep_view()[i].len()
                ==> (#[trigger] lookup_key(keys.deep_view(), befores.deep_view()[i][k]) matches Some(j)
                    && comes_before(order@, i as usize, j)),
        r matches Ok(order) ==> forall|i: int, k: int|
            0 <= i < keys@.len() && 0 <= k < afters.deep_view()[i].len()
                ==> (#[trigger] lookup_key(keys.deep_view(), afters.deep_view()[i][k]) matches Some(j)
                    && comes_before(order@, j, i as usize)),
{
    let deps = match collect_dependencies(keys, befores, afters) {
        Ok(deps) => deps,
        Err(e) => {
            return Err(e);
        },
    };
    let ghost d = rows(deps@);
    assert(collect_deps(keys.deep_view(), befores.deep_view(), afters.deep_view(), keys@.len() as nat) == Ok::<Seq<Seq<usize>>, (Seq<char>, Seq<char>)>(d));
    match sort_dependencies(&deps) {
        Ok(order) => {
            proof {
                let kv = keys.deep_view();
                let bv = befores.deep_view();
                let av = afters.deep_view();
                assert forall|i: int, k: int| 0 <= i < keys@.len() && 0 <= k < bv[i].len()
                    implies (#[trigger] lookup_key(kv, bv[i][k]) matches Some(j) && comes_before(order@, i as usize, j)) by {
                    let j = lookup_key(kv, bv[i][k])->Some_0;
                    assert(d[j as int].contains(i as usize));
                    assert forall|p: int, q: int| 0 <= p < order@.len() && 0 <= q < order@.len() && order@[p] == i as usize
                        && order@[q] == j implies p < q by {
                        assert(depends(d, order@[q], order@[p]));
                    }
                }
                assert forall|i: int, k: int| 0 <= i < keys@.len() && 0 <= k < av[i].len()
                    implies (#[trigger] lookup_key(kv, av[i][k]) matches Some(j) && comes_before(order@, j, i as usize)) by {
                    let j = lookup_key(kv, av[i][k])->Some_0;
                    assert(d[i].contains(j));
                    assert forall|p: int, q: int| 0 <= p < order@.len() && 0 <= q < order@.len() && order@[p] == j
                        && order@[q] == i as usize implies p < q by {
                        assert(depends(d, order@[q], order@[p]));
                    }
                }
            }
            Ok(order)
        },
        Err((a, b)) => {
            let plugin = keys[a].clone();
            proof {
                assert(keys.deep_view()[a as int] == keys@[a as int]@);
            }
            Err(PluginError::CircularDependency { plugin, dependency_index: b })
        },
    }
}

/// Sort plugins based on dependencies using topological sort: returns the
/// indices of `plugins` in the order in which they are to be installed.
/// Each plugin is asked for its key and declarations once, in index order,
/// and the order is the one [`sort_declared_plugins`] gives for what they
/// answered.
pub fn sort_plugins(plugins: &[Box<dyn Plugin>]) -> (r: Result<Vec<usize>, PluginError>)
    ensures
        exists|keys: Seq<Seq<char>>, befores: Seq<Seq<Seq<char>>>, afters: Seq<Seq<Seq<char>>>|
            #[trigger] read_from(plugins@, keys, befores, afters) && declared_order(keys, befores, afters, r),
        r matches Ok(order) ==> is_order_of(order@, plugins@.len()),
        r matches Err(PluginError::CircularDependency { dependency_index, .. }) ==> dependency_index < plugins@.len(),
        plugins@.len() == 0 ==> (r matches Ok(order) && order@.len() == 0),
{
    let n = plugins.len();
    let mut keys: Vec<String> = Vec::new();
    let mut befores: Vec<Vec<String>> = Vec::new();
    let mut afters: Vec<Vec<String>> = Vec::new();
    for i in 0..n
        invariant
            n == plugins@.len(),
            keys@.len() == i,
            befores@.len() == i,
            afters@.len() == i,
            forall|j: int| 0 <= j < i && (#[trigger] plugins@[j]).states_declarations() ==> {
                &&& keys.deep_view()[j] == plugins@[j].spec_key()
                &&& befores.deep_view()[j] == plugins@[j].spec_before()
                &&& afters.deep_view()[j] == plugins@[j].spec_after()
            },
    {
        let plugin: &Box<dyn Plugin> = &plugins[i];
        let key = plugin.key();
        let before = plugin.before();
        let after = plugin.after();
        let ghost (k0, b0, a0) = (keys.deep_view(), befores.deep_view(), afters.deep_view());
        let ghost (kv, bv, av) = (key@, before.deep_view(), after.deep_view());
        proof {
            assert(*plugin == plugins@[i as int]);
            assert(plugin.states_declarations() ==> bv == plugin.spec_before());
            assert(plugin.states_declarations() ==> av == plugin.spec_after());
        }
        keys.push(key);
        befores.push(before);
        afters.push(after);
        proof {
            assert(keys.deep_view() =~= k0.push(kv));
            assert(befores.deep_view() =~= b0.push(bv));
            assert(afters.deep_view() =~= a0.push(av));
        }
    }
    let r = sort_declared_plugins(&keys, &befores, &afters);
    proof {
        assert(read_from(plugins@, keys.deep_view(), befores.deep_view(), afters.deep_view()));
        if let Err(PluginError::CircularDependency { ref plugin, dependency_index }) = r {
            let d = collect_deps(keys.deep_view(), befores.deep_view(), afters.deep_view(), keys@.len() as nat)->Ok_0;
            let a = choose|a: usize| {
                &&& a < keys.deep_view().len()
                &&& keys.deep_view()[a as int] == plugin@
                &&& #[trigger] depends(d, a, dependency_index)
                &&& exists|p: Seq<usize>| #[trigger] is_dep_path(d, p) && p[0] == dependency_index && p.last() == a
            };
            let p = choose|p: Seq<usize>| #[trigger] is_dep_path(d, p) && p[0] == dependency_index && p.last() == a;
            assert(p[0] < d.len());
        }
        if n == 0 {
            assert(r matches Ok(order) && is_order_of(order@, 0));
        }
    }
    r
}

/// The dependencies of `n` plugins that depend on nothing.
pub open spec fn no_deps(n: nat) -> Seq<Seq<usize>> {
    Seq::new(n, |_i: int| Seq::<usize>::empty())
}

/// Without declarations, reading those of the first `count` plugins adds no
/// dependency.
proof fn lemma_collect_nothing(
    keys: Seq<Seq<char>>,
    befores: Seq<Seq<Seq<char>>>,
    afters: Seq<Seq<Seq<char>>>,
    count: nat,
)
    requires
        count <= keys.len(),
        befores.len() == keys.len(),
        afters.len() == keys.len(),
        forall|i: int| 0 <= i < keys.len() ==> #[trigger] befores[i].len() == 0 && afters[i].len() == 0,
    ensures
        collect_deps(keys, befores, afters, count) == Ok::<Seq<Seq<usize>>, (Seq<char>, Seq<char>)>(no_deps(keys.len())),
    decreases count,
{
    if count > 0 {
        let i = count - 1;
        lemma_collect_nothing(keys, befores, afters, (count - 1) as nat);
        let d = no_deps(keys.len());
        assert(befores[i].len() == 0 && afters[i].len() == 0);
        assert(d.update(i, d[i] + Seq::<usize>::empty()) =~= d);
    }
    assert(no_deps(keys.len()) =~= Seq::new(keys.len(), |_i: int| Seq::<usize>::empty()));
}

/// The state of the search over plugins without dependencies once the
/// first `i` of `n` are placed.
pub open spec fn placed_first(n: nat, i: nat) -> DfsState {
    (Seq::new(n, |j: int| if j < i { 2u8 } else { 0u8 }), Seq::new(i, |j: int| j as usize))
}

/// Over plugins without dependencies, the search places them in index
/// order.
proof fn lemma_visit_in_index_order(n: nat, i: nat)
    requires
        i <= n,
        n <= usize::MAX,
    ensures
        dfs_visit_from(no_deps(n), placed_first(n, i), i) == Ok::<DfsState, (usize, usize)>(placed_first(n, n)),
    decreases n - i,
{
    if i < n {
        let deps = no_deps(n);
        let st = placed_first(n, i);
        let marked = (st.0.update(i as int, 1), st.1);
        assert(deps[i as int].len() == 0);
        assert(dfs_visit_deps(deps, marked, i as usize, 0, (n - 1) as nat) == Ok::<DfsState, (usize, usize)>(marked));
        assert(dfs_visit(deps, st, i as usize, n) == Ok::<DfsState, (usize, usize)>(
            (marked.0.update(i as int, 2), st.1.push(i as usize))));
        assert(marked.0.update(i as int, 2) =~= placed_first(n, i + 1).0);
        assert(st.1.push(i as usize) =~= placed_first(n, i + 1).1);
        lemma_visit_in_index_order(n, i + 1);
    }
}

/// Plugins that declare nothing keep the order they were given in.
pub proof fn lemma_undeclared_plugins_keep_their_order(
    keys: Seq<Seq<char>>,
    befores: Seq<Seq<Seq<char>>>,
    afters: Seq<Seq<Seq<char>>>,
    r: Result<Vec<usize>, PluginError>,
)
    requires
        befores.len() == keys.len(),
        afters.len() == keys.len(),
        keys.len() <= usize::MAX,
        forall|i: int| 0 <= i < keys.len() ==> #[trigger] befores[i].len() == 0 && afters[i].len() == 0,
        declared_order(keys, befores, afters, r),
    ensures
        r matches Ok(order) && order@ == Seq::new(keys.len(), |i: int| i as usize),
{
    let n = keys.len();
    lemma_collect_nothing(keys, befores, afters, n);
    assert(placed_first(n, 0).0 =~= Seq::new(n, |_i: int| 0u8));
    assert(placed_first(n, 0).1 =~= Seq::<usize>::empty());
    lemma_visit_in_index_order(n, 0);
    assert(no_deps(n).len() == n);
}

/// The record of running the first `k` items of `items` in turn: each
/// with whether it succeeded, all of them succeeding but, when `failed`,
/// the last one.
pub open spec fn outcomes<A>(items: Seq<A>, k: int, failed: bool) -> Seq<(A, bool)> {
    Seq::new(k as nat, |j: int| (items[j], !(failed && j == k - 1)))
}

/// What installs the plugins of a layer, one at a time, in the order the
/// layer decides.
pub trait PluginInstaller {
    type Error;

    /// Whether the installer keeps, in [`installed`](PluginInstaller::installed),
    /// a record of the plugins it was asked to install. One that keeps none
    /// states nothing.
    open spec fn keeps_log() -> bool {
        false
    }

    /// The indices of the plugins installed so far, in order, each with
    /// whether its install succeeded.
    open spec fn installed(&self) -> Seq<(usize, bool)> {
        Seq::empty()
    }

    /// Installs the plugin at `index`.
    fn install(&mut self, index: usize) -> (r: Result<(), Self::Error>)
        ensures
            Self::keeps_log() ==> final(self).installed() == old(self).installed().push((index, r is Ok)),
    ;
}

/// Installs the plugins at the indices of `order`, in that order, and stops
/// at the first that fails, passing its error on: on an error, the plugin
/// installed last is the one that failed, and every one before it succeeded.
pub fn install_in_order<I: PluginInstaller>(installer: &mut I, order: &Vec<usize>) -> (r: Result<(), I::Error>)
    ensures
        I::keeps_log() ==> (r is Ok ==> final(installer).installed() == old(installer).installed()
            + outcomes(order@, order@.len() as int, false)),
        I::keeps_log() ==> (r is Err ==> exists|k: int|
            0 < k <= order@.len() && final(installer).installed() == old(installer).installed()
                + #[trigger] outcomes(order@, k, true)),
{
    let n = order.len();
    for i in 0..n
        invariant
            n == order@.len(),
            I::keeps_log() ==> installer.installed() == old(installer).installed() + outcomes(order@, i as int, false),
    {
        let r = installer.install(order[i]);
        proof {
            if I::keeps_log() {
                if r is Ok {
                    assert(outcomes(order@, i + 1, false) =~= outcomes(order@, i as int, false).push((order@[i as int], true)));
                    assert(installer.installed() =~= old(installer).installed() + outcomes(order@, i + 1, false));
                } else {
                    assert(outcomes(order@, i + 1, true) =~= outcomes(order@, i as int, false).push((order@[i as int], false)));
                    assert(installer.installed() =~= old(installer).installed() + outcomes(order@, i + 1, true));
                }
            }
        }
        if r.is_err() {
            return r;
        }
    }
    Ok(())
}

/// The schedules of a layer, run in turn on each tick.
#[derive(Debug, Clone, Copy, PartialEq, Eq, Structural)]
pub enum ScheduleStep {
    Startup,
    FixedTimeStep,
    PerTick,
}

/// What runs the schedules of a layer.
pub trait ScheduleRunner {
    type Error;

    /// Whether the runner keeps, in [`ran`](ScheduleRunner::ran), a record
    /// of the schedules it was asked to run. One that keeps none states
    /// nothing.
    open spec fn keeps_log() -> bool {
        false
    }

    /// The schedules run so far, in order, each with whether it succeeded.
    open spec fn ran(&self) -> Seq<(ScheduleStep, bool)> {
        Seq::empty()
    }

    /// Runs one schedule.
    fn run(&mut self, step: ScheduleStep) -> (r: Result<(), Self::Error>)
        ensures
            Self::keeps_log() ==> final(self).ran() == old(self).ran().push((step, r is Ok)),
    ;
}

/// The schedules a tick runs: the startup schedule when it has not run yet,
/// then the fixed time step schedule, then the per tick one.
pub open spec fn tick_steps(startup_pending: bool) -> Seq<ScheduleStep> {
    if startup_pending {
        seq![ScheduleStep::Startup, ScheduleStep::FixedTimeStep, ScheduleStep::PerTick]
    } else {
        seq![ScheduleStep::FixedTimeStep, ScheduleStep::PerTick]
    }
}

/// The startup schedule runs on the first tick only: a tick after it, whose
/// startup is no longer pending, runs the fixed time step and per tick
/// schedules alone.
pub proof fn lemma_startup_runs_once(first_pending: bool)
    ensures
        !tick_steps(false).contains(ScheduleStep::Startup),
        forall|k: int| 0 < k < (tick_steps(first_pending) + tick_steps(false)).len()
            ==> #[trigger] (tick_steps(first_pending) + tick_steps(false))[k] != ScheduleStep::Startup,
{
    assert(tick_steps(false)[0] != ScheduleStep::Startup);
    assert(tick_steps(false)[1] != ScheduleStep::Startup);
}

/// Runs the schedules of one tick in order, stopping at the first that
/// fails: on an error, the schedule run last is the one that failed, and
/// every one before it succeeded. The startup schedule is taken before it
/// runs, so it never runs again, whether it succeeds or not.
pub fn run_tick<R: ScheduleRunner>(runner: &mut R, startup_pending: &mut bool) -> (r: Result<(), R::Error>)
    ensures
        !*final(startup_pending),
        R::keeps_log() ==> (r is Ok ==> final(runner).ran() == old(runner).ran()
            + outcomes(tick_steps(*old(startup_pending)), tick_steps(*old(startup_pending)).len() as int, false)),
        R::keeps_log() ==> (r is Err ==> exists|k: int|
            0 < k <= tick_steps(*old(startup_pending)).len()
                && final(runner).ran() == old(runner).ran() + #[trigger] outcomes(tick_steps(*old(startup_pending)), k, true)),
{
    let ghost steps = tick_steps(*startup_pending);
    let ghost before = runner.ran();
    let ghost mut done: int = 0;
    if *startup_pending {
        *startup_pending = false;
        let r = runner.run(ScheduleStep::Startup);
        proof {
            if R::keeps_log() {
                if r is Ok {
                    assert(outcomes(steps, 1, false) =~= seq![(ScheduleStep::Startup, true)]);
                } else {
                    assert(outcomes(steps, 1, true) =~= seq![(ScheduleStep::Startup, false)]);
                }
            }
            done = 1;
        }
        if r.is_err() {
            return r;
        }
    } else {
        assert(outcomes(steps, 0, false) =~= Seq::<(ScheduleStep, bool)>::empty());
    }
    assert(R::keeps_log() ==> runner.ran() =~= before + outcomes(steps, done, false));
    let r = runner.run(ScheduleStep::FixedTimeStep);
    proof {
        if R::keeps_log() {
            if r is Ok {
                assert(outcomes(steps, done + 1, false) =~= outcomes(steps, done, false).push((ScheduleStep::FixedTimeStep, true)));
                assert(runner.ran() =~= before + outcomes(steps, done + 1, false));
            } else {
                assert(outcomes(steps, done + 1, true) =~= outcomes(steps, done, false).push((ScheduleStep::FixedTimeStep, false)));
                assert(runner.ran() =~= before + outcomes(steps, done + 1, true));
            }
        }
    }
    if r.is_err() {
        return r;
    }
    let r = runner.run(ScheduleStep::PerTick);
    proof {
        if R::keeps_log() {
            if r is Ok {
                assert(outcomes(steps, done + 2, false) =~= outcomes(steps, done + 1, false).push((ScheduleStep::PerTick, true)));
                assert(runner.ran() =~= before + outcomes(steps, done + 2, false));
            } else {
                assert(outcomes(steps, done + 2, true) =~= outcomes(steps, done + 1, false).push((ScheduleStep::PerTick, false)));
                assert(runner.ran() =~= before + outcomes(steps, done + 2, true));
            }
        }
    }
    r
}

} // verus!
