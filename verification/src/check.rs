//! Semantic validation of a parsed profile.
//!
//! Two read-only passes accumulate diagnostics without mutating the tree:
//! the configuration pass (duplicate entries, oversized timeouts, the
//! default layer's existence) and the layer pass (at least one layer,
//! duplicate layer names, unknown layer references, reachability of every
//! layer from the default layer). A profile whose diagnostics hold no error
//! is valid; warnings alone never make it invalid.

use crate::ast::{Bind, Config, ConfigEntry, Layer, Profile, Statement};
use crate::diag::{has_error, msg, msg_append, msg_number, DiagKind, DiagSig, Diagnostic, Severity};
use crate::utils::{Span, Spanned};
use vstd::prelude::*;

verus! {

/// Timeouts at or above this many time units draw a warning.
pub const LARGE_TIMEOUT_WARNING_THRESHOLD: usize = 5000;

/// The names of a list of layers, in declaration order.
pub open spec fn layer_names_of(layers: Seq<Spanned<Layer>>) -> Seq<Seq<u8>> {
    layers.map_values(|l: Spanned<Layer>| l.value.name.value@)
}

/// The names of a profile's layers, in declaration order.
pub open spec fn layer_names(p: Profile) -> Seq<Seq<u8>> {
    layer_names_of(p.layers@)
}

/// Whether a name matches one of the given names.
pub open spec fn name_resolves(names: Seq<Seq<u8>>, n: Seq<u8>) -> bool {
    exists|i: int| 0 <= i < names.len() && names[i] == n
}

/// The first index carrying the given name, if any.
pub open spec fn spec_find_layer(names: Seq<Seq<u8>>, n: Seq<u8>) -> Option<int>
    decreases names.len(),
{
    if names.len() == 0 {
        None
    } else if names.first() == n {
        Some(0)
    } else {
        match spec_find_layer(names.drop_first(), n) {
            Some(i) => Some(i + 1),
            None => None,
        }
    }
}

/// The found index names the name; nothing is found exactly when the name
/// resolves nowhere.
pub proof fn lemma_find_layer_props(names: Seq<Seq<u8>>, n: Seq<u8>)
    ensures
        match spec_find_layer(names, n) {
            Some(i) => 0 <= i < names.len() && names[i] == n && (forall|j: int|
                0 <= j < i ==> names[j] != n),
            None => !name_resolves(names, n),
        },
    decreases names.len(),
{
    if names.len() > 0 && names.first() != n {
        lemma_find_layer_props(names.drop_first(), n);
        match spec_find_layer(names.drop_first(), n) {
            Some(i) => {
                assert(names[i + 1] == names.drop_first()[i]);
                assert(forall|j: int|
                    1 <= j < i + 1 ==> names[j] == names.drop_first()[j - 1]);
            },
            None => {
                if name_resolves(names, n) {
                    let i = choose|i: int| 0 <= i < names.len() && names[i] == n;
                    assert(names.drop_first()[i - 1] == n);
                }
            },
        }
    }
}

/// Whether a bind's layer reference, if it has one, names an existing layer.
pub open spec fn bind_resolves(names: Seq<Seq<u8>>, b: Bind) -> bool {
    match b {
        Bind::ChangeLayer(nm) => name_resolves(names, nm.value@),
        _ => true,
    }
}

/// Whether every bind of the statement resolves.
pub open spec fn stmt_resolves(names: Seq<Seq<u8>>, s: Statement) -> bool {
    forall|j: int| 0 <= j < s.rhs@.len() ==> bind_resolves(names, (#[trigger] s.rhs@[j]).value)
}

/// Whether every bind of the layer resolves.
pub open spec fn layer_refs_resolve(names: Seq<Seq<u8>>, l: Layer) -> bool {
    forall|k: int|
        0 <= k < l.statements@.len() ==> stmt_resolves(names, (#[trigger] l.statements@[k]).value)
}

/// Whether every switch-layer bind of the profile names an existing layer.
pub open spec fn all_refs_resolve(p: Profile) -> bool {
    forall|i: int|
        0 <= i < p.layers@.len() ==> layer_refs_resolve(
            layer_names(p),
            (#[trigger] p.layers@[i]).value,
        )
}

/// The first `default_layer` entry's name, if any.
pub open spec fn spec_first_default(entries: Seq<ConfigEntry>) -> Option<Seq<u8>>
    decreases entries.len(),
{
    if entries.len() == 0 {
        None
    } else {
        match entries.first() {
            ConfigEntry::DefaultLayer(v) => Some(v.value@),
            _ => spec_first_default(entries.drop_first()),
        }
    }
}

/// Configuration resolution keeps exactly the first `default_layer` name:
/// entries are applied last to first, so the first write wins.
pub proof fn lemma_resolve_default(entries: Seq<ConfigEntry>)
    ensures
        crate::ast::spec_resolve_config(entries).default_layer == spec_first_default(entries),
    decreases entries.len(),
{
    if entries.len() > 0 {
        lemma_resolve_default(entries.drop_first());
    }
}

/// Whether the configured default layer, if one is named, exists.
pub open spec fn default_resolves(p: Profile) -> bool {
    match spec_first_default(p.config.value.entry_values()) {
        Some(n) => name_resolves(layer_names(p), n),
        None => true,
    }
}

/// A checked profile: at least one layer, every switch-layer bind resolves,
/// and the configured default layer exists. Lowering requires this.
pub open spec fn wf_checked(p: Profile) -> bool {
    &&& p.layers@.len() >= 1
    &&& all_refs_resolve(p)
    &&& default_resolves(p)
}

/// Every edge of the graph stays inside it.
pub open spec fn graph_wf(g: Seq<Vec<usize>>) -> bool {
    forall|i: int, j: int|
        0 <= i < g.len() && 0 <= j < g[i]@.len() ==> (#[trigger] g[i]@[j]) < g.len()
}

/// A walk through the graph: every node steps to one of its successors.
pub open spec fn is_path(g: Seq<Vec<usize>>, p: Seq<usize>) -> bool {
    &&& p.len() > 0
    &&& (forall|k: int| 0 <= k < p.len() ==> (#[trigger] p[k]) < g.len())
    &&& (forall|k: int| 0 <= k < p.len() - 1 ==> g[p[k] as int]@.contains(#[trigger] p[k + 1]))
}

/// Whether some chain of edges leads from `start` to `t`.
pub open spec fn spec_reachable(g: Seq<Vec<usize>>, start: usize, t: usize) -> bool {
    exists|p: Seq<usize>| is_path(g, p) && p.first() == start && p.last() == t
}

/// The bind at position `(k, m)` of a layer's statements.
pub open spec fn layer_bind(l: Layer, k: int, m: int) -> Bind {
    l.statements@[k].value.rhs@[m].value
}

/// Whether a bind switches to layer `j`, under first-match name resolution.
pub open spec fn bind_edge(names: Seq<Seq<u8>>, b: Bind, j: int) -> bool {
    match b {
        Bind::ChangeLayer(nm) => spec_find_layer(names, nm.value@) == Some(j),
        _ => false,
    }
}

/// Whether some switch-layer bind of layer `i` resolves to layer `j`.
pub open spec fn spec_layer_edge(p: Profile, i: int, j: int) -> bool {
    exists|k: int, m: int|
        0 <= k < p.layers@[i].value.statements@.len() && 0 <= m
            < p.layers@[i].value.statements@[k].value.rhs@.len() && bind_edge(
            layer_names(p),
            #[trigger] layer_bind(p.layers@[i].value, k, m),
            j,
        )
}

/// A chain of switch-layer edges through the profile's layers.
pub open spec fn profile_path(p: Profile, q: Seq<int>) -> bool {
    &&& q.len() > 0
    &&& (forall|x: int| 0 <= x < q.len() ==> 0 <= #[trigger] q[x] < p.layers@.len())
    &&& (forall|x: int| 0 <= x < q.len() - 1 ==> spec_layer_edge(p, #[trigger] q[x], q[x + 1]))
}

/// Whether some chain of switch-layer binds leads from layer `start` to
/// layer `t`.
pub open spec fn spec_layer_reachable(p: Profile, start: int, t: int) -> bool {
    exists|q: Seq<int>| profile_path(p, q) && q.first() == start && q.last() == t
}

/// The layer the reachability walk starts from: the configured default
/// layer, or the first layer when none is configured.
pub open spec fn spec_start_layer(p: Profile) -> int {
    match spec_first_default(p.config.value.entry_values()) {
        Some(n) => match spec_find_layer(layer_names(p), n) {
            Some(i) => i,
            None => 0,
        },
        None => 0,
    }
}

/// Whether the diagnostics report layer `t` as unreachable: some
/// unreachable-layer warning points at exactly that layer's span.
pub open spec fn unreachable_reported(p: Profile, ds: Seq<Diagnostic>, t: int) -> bool {
    exists|w: int|
        0 <= w < ds.len() && (#[trigger] ds[w]).kind == DiagKind::UnreachableLayer
            && ds[w].sig().spans == seq![p.layers@[t].span]
}

/// Whether a diagnostic points at the span of some layer that no chain of
/// switch-layer binds reaches from `start`.
pub open spec fn reports_unreachable(p: Profile, d: Diagnostic, start: int) -> bool {
    exists|t: int|
        0 <= t < p.layers@.len() && !spec_layer_reachable(p, start, t) && d.sig().spans == seq![
            (#[trigger] p.layers@[t]).span,
        ]
}

/// An adjacency list that holds exactly the profile's switch-layer edges
/// reaches exactly what the profile's switch-layer binds reach.
proof fn lemma_graph_models_edges(p: Profile, g: Seq<Vec<usize>>, start: usize, t: usize)
    requires
        g.len() == p.layers@.len(),
        g.len() <= usize::MAX,
        start < g.len(),
        t < g.len(),
        forall|i: int, j: usize|
            0 <= i < g.len() ==> ((#[trigger] g[i]@.contains(j)) <==> (j < g.len()
                && spec_layer_edge(p, i, j as int))),
    ensures
        spec_reachable(g, start, t) <==> spec_layer_reachable(p, start as int, t as int),
{
    if spec_reachable(g, start, t) {
        let q = choose|q: Seq<usize>| is_path(g, q) && q.first() == start && q.last() == t;
        let qi = q.map_values(|u: usize| u as int);
        assert(qi.len() == q.len());
        assert forall|x: int| 0 <= x < qi.len() - 1 implies spec_layer_edge(
            p,
            #[trigger] qi[x],
            qi[x + 1],
        ) by {
            assert(g[q[x] as int]@.contains(q[x + 1]));
            assert(qi[x] == q[x] as int);
            assert(qi[x + 1] == q[x + 1] as int);
        }
        assert(profile_path(p, qi));
        assert(qi.first() == start as int);
        assert(qi.last() == t as int);
        assert(spec_layer_reachable(p, start as int, t as int));
    }
    if spec_layer_reachable(p, start as int, t as int) {
        let qi = choose|qi: Seq<int>|
            profile_path(p, qi) && qi.first() == start as int && qi.last() == t as int;
        let q = qi.map_values(|x: int| x as usize);
        assert(q.len() == qi.len());
        assert forall|x: int| 0 <= x < q.len() implies (#[trigger] q[x]) < g.len() by {
            assert(qi[x] < p.layers@.len());
            assert(q[x] == qi[x] as usize);
        }
        assert forall|x: int| 0 <= x < q.len() - 1 implies g[q[x] as int]@.contains(
            #[trigger] q[x + 1],
        ) by {
            assert(spec_layer_edge(p, qi[x], qi[x + 1]));
            assert(q[x] == qi[x] as usize);
            assert(q[x + 1] == qi[x + 1] as usize);
            assert(g[q[x] as int]@.contains(q[x + 1]));
        }
        assert(is_path(g, q));
        assert(q.first() == start);
        assert(q.last() == t);
        assert(spec_reachable(g, start, t));
    }
}

/// A node is reachable from itself.
proof fn lemma_reachable_self(g: Seq<Vec<usize>>, start: usize)
    requires
        start < g.len(),
    ensures
        spec_reachable(g, start, start),
{
    let p: Seq<usize> = seq![start];
    assert(is_path(g, p) && p.first() == start && p.last() == start);
}

/// Reachability extends along one edge.
proof fn lemma_reachable_step(g: Seq<Vec<usize>>, start: usize, v: usize, w: usize)
    requires
        spec_reachable(g, start, v),
        g[v as int]@.contains(w),
        w < g.len(),
    ensures
        spec_reachable(g, start, w),
{
    let p = choose|p: Seq<usize>| is_path(g, p) && p.first() == start && p.last() == v;
    let q = p.push(w);
    assert(q.last() == w);
    assert(forall|k: int| 0 <= k < p.len() ==> q[k] == p[k]);
    assert forall|k: int| 0 <= k < q.len() - 1 implies g[q[k] as int]@.contains(
        #[trigger] q[k + 1],
    ) by {
        if k < p.len() - 1 {
            assert(q[k] == p[k]);
            assert(q[k + 1] == p[k + 1]);
        } else {
            assert(q[k] == p.last());
            assert(q[k + 1] == w);
        }
    }
    assert(is_path(g, q));
    assert(q.first() == start);
}

/// Every node of a path out of a visited-closed set is visited.
proof fn lemma_path_visited(g: Seq<Vec<usize>>, visited: Seq<bool>, p: Seq<usize>, k: int)
    requires
        visited.len() == g.len(),
        is_path(g, p),
        visited[p[0] as int],
        forall|v: int, w: usize|
            0 <= v < g.len() && visited[v] && g[v]@.contains(w) ==> visited[w as int],
        0 <= k < p.len(),
    ensures
        visited[p[k] as int],
    decreases k,
{
    if k > 0 {
        lemma_path_visited(g, visited, p, k - 1);
        assert(g[p[k - 1] as int]@.contains(p[(k - 1) + 1]));
        assert(p[(k - 1) + 1] == p[k]);
    }
}

/// In a closed visited set containing `start`, everything reachable from
/// `start` is visited.
proof fn lemma_closed_covers_reachable(
    g: Seq<Vec<usize>>,
    visited: Seq<bool>,
    start: usize,
    t: usize,
)
    requires
        visited.len() == g.len(),
        start < g.len(),
        visited[start as int],
        forall|v: int, w: usize|
            0 <= v < g.len() && visited[v] && g[v]@.contains(w) ==> visited[w as int],
        spec_reachable(g, start, t),
    ensures
        t < g.len() && visited[t as int],
{
    let p = choose|p: Seq<usize>| is_path(g, p) && p.first() == start && p.last() == t;
    lemma_path_visited(g, visited, p, p.len() - 1);
}

/// How many entries are true.
pub open spec fn count_trues(s: Seq<bool>) -> int
    decreases s.len(),
{
    if s.len() == 0 {
        0
    } else {
        count_trues(s.drop_last()) + (if s.last() {
            1int
        } else {
            0int
        })
    }
}

/// The count of trues never exceeds the length.
proof fn lemma_count_trues_bound(s: Seq<bool>)
    ensures
        0 <= count_trues(s) <= s.len(),
    decreases s.len(),
{
    if s.len() > 0 {
        lemma_count_trues_bound(s.drop_last());
    }
}

/// Flipping a false entry to true raises the count by one.
proof fn lemma_count_trues_update(s: Seq<bool>, i: int)
    requires
        0 <= i < s.len(),
        !s[i],
    ensures
        count_trues(s.update(i, true)) == count_trues(s) + 1,
    decreases s.len(),
{
    let t = s.update(i, true);
    if i == s.len() - 1 {
        assert(t.drop_last() =~= s.drop_last());
    } else {
        assert(t.drop_last() =~= s.drop_last().update(i, true));
        lemma_count_trues_update(s.drop_last(), i);
    }
}

impl Profile {
    /// Depth-first reachability over an adjacency list: the indices of every
    /// node that no chain of edges reaches from `start`, in ascending order.
    #[verifier::loop_isolation(false)]
    #[verifier::rlimit(60)]
    pub fn find_unreachable_layers(graph: &Vec<Vec<usize>>, start: usize) -> (r: Vec<usize>)
        requires
            start < graph@.len(),
            graph_wf(graph@),
        ensures
            forall|k: int|
                0 <= k < r@.len() ==> (#[trigger] r@[k]) < graph@.len() && !spec_reachable(
                    graph@,
                    start,
                    r@[k],
                ),
            forall|t: usize|
                t < graph@.len() && !spec_reachable(graph@, start, t) ==> r@.contains(t),
            forall|k1: int, k2: int| 0 <= k1 < k2 < r@.len() ==> r@[k1] < r@[k2],
    {
        let n = graph.len();
        let mut visited: Vec<bool> = Vec::new();
        let mut i: usize = 0;
        while i < n
            invariant
                i <= n,
                visited@.len() == i,
                forall|k: int| 0 <= k < i ==> !visited@[k],
            decreases n - i,
        {
            visited.push(false);
            i = i + 1;
        }
        let mut stack: Vec<usize> = Vec::new();
        stack.push(start);
        visited.set(start, true);
        let mut visited_count: usize = 1;
        proof {
            let v0 = visited@.update(start as int, false);
            assert(v0 =~= Seq::new(n as nat, |k: int| false));
            assert forall|s: Seq<bool>|
                s.len() <= n && (forall|k: int| 0 <= k < s.len() ==> !s[k]) implies count_trues(s)
                == 0 by {
                lemma_all_false_count(s);
            }
            lemma_count_trues_update(v0, start as int);
            assert(visited@ =~= v0.update(start as int, true));
            lemma_reachable_self(graph@, start);
            assert(stack@ =~= seq![start]);
            assert(stack@[0] == start);
            assert(stack@.contains(start));
            assert(forall|v: int| 0 <= v < n && v != start ==> !visited@[v]);
        }
        while stack.len() > 0
            invariant
                visited@.len() == n,
                visited@[start as int],
                visited_count == count_trues(visited@),
                visited_count <= n,
                forall|k: int| 0 <= k < stack@.len() ==> (#[trigger] stack@[k]) < n,
                forall|k: int| 0 <= k < stack@.len() ==> visited@[stack@[k] as int],
                forall|v: int|
                    0 <= v < n && visited@[v] ==> spec_reachable(graph@, start, v as usize),
                forall|v: int, w: usize|
                    0 <= v < n && visited@[v] && !stack@.contains(v as usize) && graph@[v]@.contains(
                        w,
                    ) ==> visited@[w as int],
            decreases n - visited_count, stack@.len(),
        {
            let ghost count_pre = visited_count as int;
            let ghost old_stack = stack@;
            let node = match stack.pop() {
                Some(v) => v,
                None => {
                    return Vec::new();
                },
            };
            let ghost stack_after_pop = stack@;
            proof {
                assert(node == old_stack.last());
                assert(stack_after_pop =~= old_stack.drop_last());
                assert forall|v: usize|
                    !stack_after_pop.contains(v) && v != node implies !old_stack.contains(v) by {
                    if old_stack.contains(v) {
                        let k = choose|k: int| 0 <= k < old_stack.len() && old_stack[k] == v;
                        assert(k < old_stack.len() - 1);
                        assert(stack_after_pop[k] == v);
                    }
                }
            }
            let mut j: usize = 0;
            while j < graph[node].len()
                invariant
                    node < n,
                    visited@.len() == n,
                    visited@[start as int],
                    visited@[node as int],
                    visited_count == count_trues(visited@),
                    visited_count <= n,
                    count_pre <= visited_count,
                    visited_count > count_pre || stack@.len() == stack_after_pop.len(),
                    j <= graph@[node as int]@.len(),
                    forall|k: int| 0 <= k < stack@.len() ==> (#[trigger] stack@[k]) < n,
                    forall|k: int| 0 <= k < stack@.len() ==> visited@[stack@[k] as int],
                    forall|v: int|
                        0 <= v < n && visited@[v] ==> spec_reachable(graph@, start, v as usize),
                    forall|v: int, w: usize|
                        0 <= v < n && visited@[v] && !stack@.contains(v as usize) && v != node
                            && graph@[v]@.contains(w) ==> visited@[w as int],
                    forall|idx: int|
                        0 <= idx < j ==> visited@[graph@[node as int]@[idx] as int],
                decreases graph@[node as int]@.len() - j,
            {
                let neighbor = graph[node][j];
                if !visited[neighbor] {
                    let ghost visited_pre = visited@;
                    let ghost inner_stack_pre = stack@;
                    visited.set(neighbor, true);
                    proof {
                        lemma_count_trues_update(visited_pre, neighbor as int);
                        lemma_count_trues_bound(visited@);
                        assert(graph@[node as int]@.contains(neighbor));
                        lemma_reachable_step(graph@, start, node, neighbor);
                    }
                    visited_count = visited_count + 1;
                    stack.push(neighbor);
                    proof {
                        assert(stack@[stack@.len() - 1] == neighbor);
                        assert(stack@.contains(neighbor));
                        assert forall|v: usize|
                            inner_stack_pre.contains(v) implies stack@.contains(v) by {
                            let k = choose|k: int|
                                0 <= k < inner_stack_pre.len() && inner_stack_pre[k] == v;
                            assert(stack@[k] == v);
                        }
                        assert forall|v: int, w: usize|
                            0 <= v < n && visited@[v] && !stack@.contains(v as usize) && v != node
                                && graph@[v]@.contains(w) implies visited@[w as int] by {
                            assert(v != neighbor);
                            assert(visited_pre[v]);
                            assert(!inner_stack_pre.contains(v as usize));
                        }
                    }
                }
                j = j + 1;
            }
        }
        let mut r: Vec<usize> = Vec::new();
        let mut t: usize = 0;
        while t < n
            invariant
                t <= n,
                visited@.len() == n,
                visited@[start as int],
                forall|v: int|
                    0 <= v < n && visited@[v] ==> spec_reachable(graph@, start, v as usize),
                forall|v: int, w: usize|
                    0 <= v < n && visited@[v] && graph@[v]@.contains(w) ==> visited@[w as int],
                forall|k: int|
                    0 <= k < r@.len() ==> (#[trigger] r@[k]) < t && !visited@[r@[k] as int],
                forall|u: usize| u < t && !visited@[u as int] ==> r@.contains(u),
                forall|k1: int, k2: int| 0 <= k1 < k2 < r@.len() ==> r@[k1] < r@[k2],
            decreases n - t,
        {
            let ghost r_pre = r@;
            if !visited[t] {
                r.push(t);
            }
            proof {
                assert forall|u: usize| u < t + 1 && !visited@[u as int] implies r@.contains(u) by {
                    if u < t {
                        assert(r_pre.contains(u));
                        let k = choose|k: int| 0 <= k < r_pre.len() && r_pre[k] == u;
                        assert(r@[k] == u);
                    } else {
                        assert(r@[r@.len() - 1] == t);
                    }
                }
            }
            t = t + 1;
        }
        proof {
            assert forall|k: int|
                0 <= k < r@.len() implies (#[trigger] r@[k]) < graph@.len() && !spec_reachable(
                graph@,
                start,
                r@[k],
            ) by {
                if spec_reachable(graph@, start, r@[k]) {
                    lemma_closed_covers_reachable(graph@, visited@, start, r@[k]);
                }
            }
            assert forall|u: usize|
                u < graph@.len() && !spec_reachable(graph@, start, u) implies r@.contains(u) by {
                assert(!visited@[u as int]);
            }
        }
        r
    }
}

/// A sequence of only-false entries has no trues.
proof fn lemma_all_false_count(s: Seq<bool>)
    requires
        forall|k: int| 0 <= k < s.len() ==> !s[k],
    ensures
        count_trues(s) == 0,
    decreases s.len(),
{
    if s.len() > 0 {
        lemma_all_false_count(s.drop_last());
    }
}

/// The span of the first entry of the same kind, if one was seen.
pub open spec fn seen_slot(s: SeenSpans, e: ConfigEntry) -> Option<Span> {
    match e {
        ConfigEntry::DefaultLayer(_) => s.dl,
        ConfigEntry::DefaultBehavior(_) => s.db,
        ConfigEntry::TapTimeout(_) => s.tt,
        ConfigEntry::HoldTime(_) => s.ht,
        ConfigEntry::ChordTimeout(_) => s.ct,
        ConfigEntry::SequenceTimeout(_) => s.st,
        ConfigEntry::ComboTimeout(_) => s.cb,
        ConfigEntry::Advanced(_) => s.adv,
    }
}

/// The spans of the first entry seen of each configuration-entry kind.
pub struct SeenSpans {
    pub dl: Option<Span>,
    pub db: Option<Span>,
    pub tt: Option<Span>,
    pub ht: Option<Span>,
    pub ct: Option<Span>,
    pub st: Option<Span>,
    pub cb: Option<Span>,
    pub adv: Option<Span>,
}

/// No entry kind seen yet.
pub open spec fn seen_none() -> SeenSpans {
    SeenSpans {
        dl: None,
        db: None,
        tt: None,
        ht: None,
        ct: None,
        st: None,
        cb: None,
        adv: None,
    }
}

/// Records the span of a first-seen entry kind.
pub open spec fn seen_update(s: SeenSpans, e: ConfigEntry, sp: Span) -> SeenSpans {
    match e {
        ConfigEntry::DefaultLayer(_) => SeenSpans { dl: Some(sp), ..s },
        ConfigEntry::DefaultBehavior(_) => SeenSpans { db: Some(sp), ..s },
        ConfigEntry::TapTimeout(_) => SeenSpans { tt: Some(sp), ..s },
        ConfigEntry::HoldTime(_) => SeenSpans { ht: Some(sp), ..s },
        ConfigEntry::ChordTimeout(_) => SeenSpans { ct: Some(sp), ..s },
        ConfigEntry::SequenceTimeout(_) => SeenSpans { st: Some(sp), ..s },
        ConfigEntry::ComboTimeout(_) => SeenSpans { cb: Some(sp), ..s },
        ConfigEntry::Advanced(_) => SeenSpans { adv: Some(sp), ..s },
    }
}

/// The diagnostics one entry draws: a duplicate warning (labeled with the
/// first occurrence's span and the repeat's span) exactly when its kind was
/// seen, then a large-timeout warning exactly when its timeout is at or
/// above the threshold.
pub open spec fn spec_entry_diags(s: SeenSpans, e: Spanned<ConfigEntry>) -> Seq<DiagSig> {
    (match seen_slot(s, e.value) {
        Some(orig) => seq![
            DiagSig {
                kind: DiagKind::DuplicateConfigEntry,
                severity: Severity::Warning,
                spans: seq![orig, e.span],
            },
        ],
        None => Seq::empty(),
    }) + (match crate::ast::spec_get_timeout(e.value) {
        Some(t) => if t >= LARGE_TIMEOUT_WARNING_THRESHOLD {
            seq![
                DiagSig {
                    kind: DiagKind::LargeTimeout,
                    severity: Severity::Warning,
                    spans: seq![e.span],
                },
            ]
        } else {
            Seq::empty()
        },
        None => Seq::empty(),
    })
}

/// The seen state after one entry: a first occurrence records its span.
pub open spec fn spec_seen_step(s: SeenSpans, e: Spanned<ConfigEntry>) -> SeenSpans {
    match seen_slot(s, e.value) {
        Some(_) => s,
        None => seen_update(s, e.value, e.span),
    }
}

/// The seen state after a run of entries.
pub open spec fn spec_seen_after(s: SeenSpans, entries: Seq<Spanned<ConfigEntry>>) -> SeenSpans
    decreases entries.len(),
{
    if entries.len() == 0 {
        s
    } else {
        spec_seen_after(spec_seen_step(s, entries.first()), entries.drop_first())
    }
}

/// The warnings the entry scan of the configuration pass appends, in order.
pub open spec fn spec_config_scan(s: SeenSpans, entries: Seq<Spanned<ConfigEntry>>) -> Seq<DiagSig>
    decreases entries.len(),
{
    if entries.len() == 0 {
        Seq::empty()
    } else {
        spec_entry_diags(s, entries.first()) + spec_config_scan(
            spec_seen_step(s, entries.first()),
            entries.drop_first(),
        )
    }
}

/// The span of the first `default_layer` entry's name.
pub open spec fn spec_first_default_span(entries: Seq<Spanned<ConfigEntry>>) -> Span
    decreases entries.len(),
{
    if entries.len() == 0 {
        Span { start: 0, len: 0 }
    } else {
        match entries.first().value {
            ConfigEntry::DefaultLayer(v) => v.span,
            _ => spec_first_default_span(entries.drop_first()),
        }
    }
}

/// Everything the configuration pass appends: the entry-scan warnings, then
/// one missing-default-layer error exactly when the first `default_layer`
/// entry names no existing layer.
pub open spec fn spec_config_diags(
    entries: Seq<Spanned<ConfigEntry>>,
    names: Seq<Seq<u8>>,
) -> Seq<DiagSig> {
    spec_config_scan(seen_none(), entries) + (match spec_first_default(
        entries.map_values(|e: Spanned<ConfigEntry>| e.value),
    ) {
        Some(nm) => if !name_resolves(names, nm) {
            seq![
                DiagSig {
                    kind: DiagKind::MissingDefaultLayer,
                    severity: Severity::Error,
                    spans: seq![spec_first_default_span(entries)],
                },
            ]
        } else {
            Seq::empty()
        },
        None => Seq::empty(),
    })
}

/// Scanning one more entry appends its diagnostics.
proof fn lemma_config_scan_push(
    s: SeenSpans,
    entries: Seq<Spanned<ConfigEntry>>,
    e: Spanned<ConfigEntry>,
)
    ensures
        spec_config_scan(s, entries.push(e)) == spec_config_scan(s, entries) + spec_entry_diags(
            spec_seen_after(s, entries),
            e,
        ),
        spec_seen_after(s, entries.push(e)) == spec_seen_step(spec_seen_after(s, entries), e),
    decreases entries.len(),
{
    reveal_with_fuel(spec_config_scan, 2);
    reveal_with_fuel(spec_seen_after, 2);
    if entries.len() == 0 {
        assert(entries.push(e).len() == 1);
        assert(entries.push(e).first() == e);
        assert(entries.push(e).drop_first() =~= Seq::<Spanned<ConfigEntry>>::empty());
        assert(spec_entry_diags(s, e) + Seq::<DiagSig>::empty() =~= spec_entry_diags(s, e));
        assert(Seq::<DiagSig>::empty() + spec_entry_diags(s, e) =~= spec_entry_diags(s, e));
    } else {
        assert(entries.push(e).first() == entries.first());
        assert(entries.push(e).drop_first() =~= entries.drop_first().push(e));
        lemma_config_scan_push(spec_seen_step(s, entries.first()), entries.drop_first(), e);
        let head = spec_entry_diags(s, entries.first());
        let tail = spec_config_scan(spec_seen_step(s, entries.first()), entries.drop_first());
        let extra = spec_entry_diags(spec_seen_after(s, entries), e);
        assert(head + (tail + extra) =~= (head + tail) + extra);
    }
}

/// Every diagnostic of the entry scan is a warning.
proof fn lemma_config_scan_warnings(s: SeenSpans, entries: Seq<Spanned<ConfigEntry>>)
    ensures
        forall|k: int|
            0 <= k < spec_config_scan(s, entries).len() ==> (#[trigger] spec_config_scan(
                s,
                entries,
            )[k]).severity == Severity::Warning,
    decreases entries.len(),
{
    if entries.len() > 0 {
        lemma_config_scan_warnings(spec_seen_step(s, entries.first()), entries.drop_first());
        assert forall|k: int|
            0 <= k < spec_config_scan(s, entries).len() implies (#[trigger] spec_config_scan(
            s,
            entries,
        )[k]).severity == Severity::Warning by {
            let head = spec_entry_diags(s, entries.first());
            let tail = spec_config_scan(spec_seen_step(s, entries.first()), entries.drop_first());
            if k >= head.len() {
                assert(spec_config_scan(s, entries)[k] == tail[k - head.len()]);
            }
        }
    }
}

/// One more entry moves the first default-layer span only when no
/// `default_layer` entry came before it.
proof fn lemma_first_default_span_push(
    entries: Seq<Spanned<ConfigEntry>>,
    e: Spanned<ConfigEntry>,
)
    ensures
        spec_first_default_span(entries.push(e)) == (match spec_first_default(
            entries.map_values(|x: Spanned<ConfigEntry>| x.value),
        ) {
            Some(_) => spec_first_default_span(entries),
            None => match e.value {
                ConfigEntry::DefaultLayer(v) => v.span,
                _ => spec_first_default_span(entries),
            },
        }),
    decreases entries.len(),
{
    reveal_with_fuel(spec_first_default_span, 2);
    reveal_with_fuel(spec_first_default, 2);
    let vals = entries.map_values(|x: Spanned<ConfigEntry>| x.value);
    if entries.len() == 0 {
        assert(entries.push(e).len() == 1);
        assert(entries.push(e).first() == e);
        assert(entries.push(e).drop_first() =~= Seq::<Spanned<ConfigEntry>>::empty());
        assert(vals =~= Seq::<ConfigEntry>::empty());
    } else {
        assert(entries.push(e).first() == entries.first());
        assert(entries.push(e).drop_first() =~= entries.drop_first().push(e));
        assert(vals.first() == entries.first().value);
        assert(vals.drop_first() =~= entries.drop_first().map_values(
            |x: Spanned<ConfigEntry>| x.value,
        ));
        lemma_first_default_span_push(entries.drop_first(), e);
    }
}

/// How many of a statement list's binds are unresolved switch-layer binds.
pub open spec fn spec_unresolved_in_binds(names: Seq<Seq<u8>>, rhs: Seq<Spanned<Bind>>) -> int
    decreases rhs.len(),
{
    if rhs.len() == 0 {
        0
    } else {
        (match rhs.first().value {
            Bind::ChangeLayer(nm) => if !name_resolves(names, nm.value@) {
                1int
            } else {
                0int
            },
            _ => 0int,
        }) + spec_unresolved_in_binds(names, rhs.drop_first())
    }
}

/// How many unresolved switch-layer binds a statement list holds.
pub open spec fn spec_unresolved_in_stmts(
    names: Seq<Seq<u8>>,
    stmts: Seq<Spanned<Statement>>,
) -> int
    decreases stmts.len(),
{
    if stmts.len() == 0 {
        0
    } else {
        spec_unresolved_in_binds(names, stmts.first().value.rhs@) + spec_unresolved_in_stmts(
            names,
            stmts.drop_first(),
        )
    }
}

/// How many unresolved switch-layer binds a layer list holds.
pub open spec fn spec_unresolved_in_layers(
    names: Seq<Seq<u8>>,
    layers: Seq<Spanned<Layer>>,
) -> int
    decreases layers.len(),
{
    if layers.len() == 0 {
        0
    } else {
        spec_unresolved_in_stmts(names, layers.first().value.statements@)
            + spec_unresolved_in_layers(names, layers.drop_first())
    }
}

/// How many switch-layer binds of the profile name no existing layer.
pub open spec fn spec_unresolved_refs(p: Profile) -> int {
    spec_unresolved_in_layers(layer_names(p), p.layers@)
}

/// Whether no two of the names coincide.
pub open spec fn names_unique(names: Seq<Seq<u8>>) -> bool {
    forall|i: int, j: int|
        #![trigger names[i], names[j]]
        0 <= i < j < names.len() ==> names[i] != names[j]
}

/// A zero unknown-layer count means no unknown-layer error at all.
pub proof fn lemma_count_unknown_zero(ds: Seq<Diagnostic>)
    requires
        count_unknown(ds) == 0,
    ensures
        forall|k: int| 0 <= k < ds.len() ==> (#[trigger] ds[k]).kind != DiagKind::UnknownLayer,
    decreases ds.len(),
{
    reveal_with_fuel(Seq::filter, 2);
    if ds.len() > 0 {
        assert(ds.drop_last().push(ds.last()) =~= ds);
        lemma_count_unknown_push(ds.drop_last(), ds.last());
        lemma_count_unknown_zero(ds.drop_last());
        assert forall|k: int|
            0 <= k < ds.len() implies (#[trigger] ds[k]).kind != DiagKind::UnknownLayer by {
            if k < ds.len() - 1 {
                assert(ds[k] == ds.drop_last()[k]);
            }
        }
    }
}

/// The unknown-layer errors among a list of diagnostics.
pub open spec fn count_unknown(ds: Seq<Diagnostic>) -> int {
    ds.filter(|x: Diagnostic| x.kind == DiagKind::UnknownLayer).len() as int
}

/// Appending one diagnostic raises the unknown-layer count by one exactly
/// when it is an unknown-layer error.
proof fn lemma_count_unknown_push(ds: Seq<Diagnostic>, d: Diagnostic)
    ensures
        count_unknown(ds.push(d)) == count_unknown(ds) + (if d.kind == DiagKind::UnknownLayer {
            1int
        } else {
            0int
        }),
{
    reveal_with_fuel(Seq::filter, 2);
    assert(ds.push(d).drop_last() =~= ds);
    assert(ds.push(d).last() == d);
}

/// One more bind adds its own contribution to the unresolved count.
proof fn lemma_unresolved_binds_push(
    names: Seq<Seq<u8>>,
    rhs: Seq<Spanned<Bind>>,
    b: Spanned<Bind>,
)
    ensures
        spec_unresolved_in_binds(names, rhs.push(b)) == spec_unresolved_in_binds(names, rhs) + (
        match b.value {
            Bind::ChangeLayer(nm) => if !name_resolves(names, nm.value@) {
                1int
            } else {
                0int
            },
            _ => 0int,
        }),
    decreases rhs.len(),
{
    reveal_with_fuel(spec_unresolved_in_binds, 2);
    if rhs.len() == 0 {
        assert(rhs.push(b).len() == 1);
        assert(rhs.push(b).first() == b);
        assert(rhs.push(b).drop_first() =~= Seq::<Spanned<Bind>>::empty());
    } else {
        assert(rhs.push(b).first() == rhs.first());
        assert(rhs.push(b).drop_first() =~= rhs.drop_first().push(b));
        lemma_unresolved_binds_push(names, rhs.drop_first(), b);
    }
}

/// One more statement adds its binds' contribution to the unresolved count.
proof fn lemma_unresolved_stmts_push(
    names: Seq<Seq<u8>>,
    stmts: Seq<Spanned<Statement>>,
    s: Spanned<Statement>,
)
    ensures
        spec_unresolved_in_stmts(names, stmts.push(s)) == spec_unresolved_in_stmts(names, stmts)
            + spec_unresolved_in_binds(names, s.value.rhs@),
    decreases stmts.len(),
{
    reveal_with_fuel(spec_unresolved_in_stmts, 2);
    if stmts.len() == 0 {
        assert(stmts.push(s).len() == 1);
        assert(stmts.push(s).first() == s);
        assert(stmts.push(s).drop_first() =~= Seq::<Spanned<Statement>>::empty());
    } else {
        assert(stmts.push(s).first() == stmts.first());
        assert(stmts.push(s).drop_first() =~= stmts.drop_first().push(s));
        lemma_unresolved_stmts_push(names, stmts.drop_first(), s);
    }
}

/// One more layer adds its statements' contribution to the unresolved
/// count.
proof fn lemma_unresolved_layers_push(
    names: Seq<Seq<u8>>,
    layers: Seq<Spanned<Layer>>,
    l: Spanned<Layer>,
)
    ensures
        spec_unresolved_in_layers(names, layers.push(l)) == spec_unresolved_in_layers(
            names,
            layers,
        ) + spec_unresolved_in_stmts(names, l.value.statements@),
    decreases layers.len(),
{
    reveal_with_fuel(spec_unresolved_in_layers, 2);
    if layers.len() == 0 {
        assert(layers.push(l).len() == 1);
        assert(layers.push(l).first() == l);
        assert(layers.push(l).drop_first() =~= Seq::<Spanned<Layer>>::empty());
    } else {
        assert(layers.push(l).first() == layers.first());
        assert(layers.push(l).drop_first() =~= layers.drop_first().push(l));
        lemma_unresolved_layers_push(names, layers.drop_first(), l);
    }
}

/// A diagnostic the configuration pass may append.
pub open spec fn config_diag_ok(d: Diagnostic) -> bool {
    ||| (d.kind == DiagKind::DuplicateConfigEntry && d.severity == Severity::Warning)
    ||| (d.kind == DiagKind::LargeTimeout && d.severity == Severity::Warning)
    ||| (d.kind == DiagKind::MissingDefaultLayer && d.severity == Severity::Error)
}

/// A diagnostic the layer pass may append.
pub open spec fn layer_diag_ok(d: Diagnostic) -> bool {
    ||| (d.kind == DiagKind::DuplicateLayer && d.severity == Severity::Error)
    ||| (d.kind == DiagKind::UnknownLayer && d.severity == Severity::Error)
    ||| (d.kind == DiagKind::UnreachableLayer && d.severity == Severity::Warning)
}

/// The first `default_layer` name of a block grows only by staying put: once
/// an entry prefix names one, the whole block names the same one.
proof fn lemma_first_default_push(s: Seq<ConfigEntry>, e: ConfigEntry)
    ensures
        spec_first_default(s.push(e)) == (match spec_first_default(s) {
            Some(n) => Some(n),
            None => match e {
                ConfigEntry::DefaultLayer(v) => Some(v.value@),
                _ => None::<Seq<u8>>,
            },
        }),
    decreases s.len(),
{
    reveal_with_fuel(spec_first_default, 2);
    if s.len() == 0 {
        assert(s.push(e).drop_first() =~= Seq::<ConfigEntry>::empty());
        assert(s.push(e).first() == e);
        assert(s.push(e).len() == 1);
    } else {
        assert(s.push(e).first() == s.first());
        assert(s.push(e).drop_first() =~= s.drop_first().push(e));
        lemma_first_default_push(s.drop_first(), e);
        match s.first() {
            ConfigEntry::DefaultLayer(v) => {
                assert(spec_first_default(s) == Some(v.value@));
                assert(spec_first_default(s.push(e)) == Some(v.value@));
            },
            _ => {},
        }
    }
}

/// Once an entry prefix names a default layer, the whole block names it.
proof fn lemma_first_default_extend(s: Seq<ConfigEntry>, i: int)
    requires
        0 <= i <= s.len(),
        spec_first_default(s.take(i)) is Some,
    ensures
        spec_first_default(s) == spec_first_default(s.take(i)),
    decreases s.len() - i,
{
    if i < s.len() {
        assert(s.take(i + 1) =~= s.take(i).push(s[i]));
        lemma_first_default_push(s.take(i), s[i]);
        lemma_first_default_extend(s, i + 1);
    } else {
        assert(s.take(i) =~= s);
    }
}

/// The first existing layer whose name matches, by linear scan.
pub fn resolve_layer_name(layers: &Vec<Spanned<Layer>>, name: &Vec<u8>) -> (r: Option<usize>)
    ensures
        r == (match spec_find_layer(layer_names_of(layers@), name@) {
            Some(i) => Some(i as usize),
            None => None::<usize>,
        }),
{
    let ghost names = layer_names_of(layers@);
    proof {
        lemma_find_layer_props(names, name@);
    }
    let mut j: usize = 0;
    while j < layers.len()
        invariant
            j <= layers@.len(),
            names == layer_names_of(layers@),
            forall|k: int| 0 <= k < j ==> names[k] != name@,
        decreases layers@.len() - j,
    {
        let hit = &layers[j].value.name.value == name;
        proof {
            if hit {
                assert(layers@[j as int].value.name.value@ =~= name@);
            } else {
                if layers@[j as int].value.name.value@ == name@ {
                    assert(false);
                }
            }
        }
        if hit {
            proof {
                lemma_find_layer_props(names, name@);
                assert(names[j as int] == name@);
                match spec_find_layer(names, name@) {
                    Some(i) => {
                        if i < j {
                            assert(names[i] != name@);
                            assert(false);
                        }
                        if i > j {
                            assert(names[j as int] != name@);
                            assert(false);
                        }
                    },
                    None => {
                        assert(name_resolves(names, name@));
                        assert(false);
                    },
                }
            }
            return Some(j);
        }
        j = j + 1;
    }
    proof {
        lemma_find_layer_props(names, name@);
        match spec_find_layer(names, name@) {
            Some(i) => {
                assert(names[i] == name@);
                assert(false);
            },
            None => {},
        }
    }
    None
}

impl Config {
    /// The configuration pass: warns on duplicate entries and oversized
    /// timeouts, and reports an error exactly when the first `default_layer`
    /// entry names no existing layer.
    #[verifier::loop_isolation(false)]
    #[verifier::rlimit(60)]
    pub fn check(&self, profile: &Profile, result: &mut Vec<Diagnostic>)
        ensures
            old(result)@.is_prefix_of(final(result)@),
            ({
                let app = final(result)@.skip(old(result)@.len() as int);
                &&& (forall|k: int| 0 <= k < app.len() ==> config_diag_ok(#[trigger] app[k]))
                &&& (has_error(app) <==> (match spec_first_default(self.entry_values()) {
                    Some(n) => !name_resolves(layer_names(*profile), n),
                    None => false,
                }))
                &&& crate::diag::sigs(app) == spec_config_diags(
                    self.entries@,
                    layer_names(*profile),
                )
            }),
    {
        let ghost r0 = old(result)@;
        let mut seen_dl: Option<Span> = None;
        let mut seen_db: Option<Span> = None;
        let mut seen_tt: Option<Span> = None;
        let mut seen_ht: Option<Span> = None;
        let mut seen_ct: Option<Span> = None;
        let mut seen_st: Option<Span> = None;
        let mut seen_cb: Option<Span> = None;
        let mut seen_adv: Option<Span> = None;
        let mut first_dl: Option<Vec<u8>> = None;
        let mut first_dl_span: Span = Span::new(0, 0);
        let mut i: usize = 0;
        proof {
            assert(self.entry_values().take(0int) =~= Seq::<ConfigEntry>::empty());
        }
        while i < self.entries.len()
            invariant
                i <= self.entries@.len(),
                r0.is_prefix_of(result@),
                forall|k: int|
                    r0.len() <= k < result@.len() ==> config_diag_ok(#[trigger] result@[k])
                        && !result@[k].is_error(),
                match first_dl {
                    Some(n) => spec_first_default(self.entry_values().take(i as int)) == Some(n@)
                        && first_dl_span == spec_first_default_span(self.entries@.take(i as int)),
                    None => spec_first_default(self.entry_values().take(i as int)) is None,
                },
                (SeenSpans {
                    dl: seen_dl,
                    db: seen_db,
                    tt: seen_tt,
                    ht: seen_ht,
                    ct: seen_ct,
                    st: seen_st,
                    cb: seen_cb,
                    adv: seen_adv,
                }) == spec_seen_after(seen_none(), self.entries@.take(i as int)),
                crate::diag::sigs(result@.skip(r0.len() as int)) == spec_config_scan(
                    seen_none(),
                    self.entries@.take(i as int),
                ),
            decreases self.entries@.len() - i,
        {
            let ghost vals_pre = self.entry_values().take(i as int);
            let ghost ents_pre = self.entries@.take(i as int);
            let ghost seen_pre = SeenSpans {
                dl: seen_dl,
                db: seen_db,
                tt: seen_tt,
                ht: seen_ht,
                ct: seen_ct,
                st: seen_st,
                cb: seen_cb,
                adv: seen_adv,
            };
            let ghost res_pre = result@;
            proof {
                assert(self.entries@.take(i + 1) =~= ents_pre.push(self.entries@[i as int]));
                lemma_config_scan_push(seen_none(), ents_pre, self.entries@[i as int]);
                lemma_first_default_span_push(ents_pre, self.entries@[i as int]);
                assert(ents_pre.map_values(|x: Spanned<ConfigEntry>| x.value) =~= vals_pre);
            }
            let e = &self.entries[i];
            let seen_slot: &mut Option<Span> = match &e.value {
                ConfigEntry::DefaultLayer(_) => &mut seen_dl,
                ConfigEntry::DefaultBehavior(_) => &mut seen_db,
                ConfigEntry::TapTimeout(_) => &mut seen_tt,
                ConfigEntry::HoldTime(_) => &mut seen_ht,
                ConfigEntry::ChordTimeout(_) => &mut seen_ct,
                ConfigEntry::SequenceTimeout(_) => &mut seen_st,
                ConfigEntry::ComboTimeout(_) => &mut seen_cb,
                ConfigEntry::Advanced(_) => &mut seen_adv,
            };
            match seen_slot {
                Some(orig) => {
                    let d = Diagnostic::new2(
                        DiagKind::DuplicateConfigEntry,
                        Severity::Warning,
                        msg("Duplicate configuration entry ignored"),
                        msg("original configuration entry"),
                        *orig,
                        msg("duplicate configuration entry"),
                        e.span,
                    );
                    result.push(d);
                },
                None => {
                    *seen_slot = Some(e.span);
                },
            }
            if first_dl.is_none() {
                match &e.value {
                    ConfigEntry::DefaultLayer(v) => {
                        first_dl = Some(crate::utils::copy_bytes(&v.value));
                        first_dl_span = v.span;
                    },
                    _ => (),
                }
            }
            match e.value.get_timeout() {
                Some(t) => {
                    if t >= LARGE_TIMEOUT_WARNING_THRESHOLD {
                        let mut message = msg("Timeout value ");
                        msg_append(&mut message, &msg_number(t));
                        msg_append(&mut message, &msg(" exceeds threshold of "));
                        msg_append(&mut message, &msg_number(LARGE_TIMEOUT_WARNING_THRESHOLD));
                        let d = Diagnostic::new1(
                            DiagKind::LargeTimeout,
                            Severity::Warning,
                            message,
                            msg("timeout exceeds recommended threshold"),
                            e.span,
                        );
                        result.push(d);
                    }
                },
                None => (),
            }
            i = i + 1;
            proof {
                assert(self.entry_values().take(i as int) =~= vals_pre.push(
                    self.entry_values()[i - 1],
                ));
                lemma_first_default_push(vals_pre, self.entry_values()[i - 1]);
                assert(crate::diag::sigs(result@.skip(r0.len() as int)) =~= crate::diag::sigs(
                    res_pre.skip(r0.len() as int),
                ) + crate::diag::sigs(result@.skip(res_pre.len() as int)));
                assert(crate::diag::sigs(result@.skip(res_pre.len() as int))
                    =~= spec_entry_diags(seen_pre, self.entries@[i - 1]));
                assert(crate::diag::sigs(result@.skip(r0.len() as int)) =~= spec_config_scan(
                    seen_none(),
                    self.entries@.take(i as int),
                ));
            }
        }
        proof {
            assert(self.entry_values().take(self.entries@.len() as int) =~= self.entry_values());
            assert(self.entries@.take(self.entries@.len() as int) =~= self.entries@);
        }
        match &first_dl {
            Some(layer_name) => {
                match resolve_layer_name(&profile.layers, layer_name) {
                    Some(_) => {
                        proof {
                            lemma_find_layer_props(layer_names(*profile), layer_name@);
                        }
                    },
                    None => {
                        proof {
                            lemma_find_layer_props(layer_names(*profile), layer_name@);
                        }
                        let mut message = msg("default_layer '");
                        msg_append(&mut message, layer_name);
                        msg_append(&mut message, &msg("' does not exist in profile layers"));
                        let d = Diagnostic::new1(
                            DiagKind::MissingDefaultLayer,
                            Severity::Error,
                            message,
                            msg("default_layer not found in profile"),
                            first_dl_span,
                        );
                        result.push(d);
                        proof {
                            let app = result@.skip(r0.len() as int);
                            assert(app[app.len() - 1].is_error());
                        }
                    },
                }
            },
            None => (),
        }
        proof {
            let app = result@.skip(r0.len() as int);
            if has_error(app) {
                let k = choose|k: int| 0 <= k < app.len() && app[k].is_error();
                assert(config_diag_ok(app[k]));
            }
        }
    }
}

/// A pushed element leaves every prefix in place.
proof fn lemma_prefix_push(p: Seq<Diagnostic>, v: Seq<Diagnostic>, d: Diagnostic)
    requires
        p.is_prefix_of(v),
    ensures
        p.is_prefix_of(v.push(d)),
{
    assert(v.push(d).subrange(0, p.len() as int) =~= v.subrange(0, p.len() as int));
}

impl Profile {
    /// The layer pass: a profile must have at least one layer, layer names
    /// must be unique, every switch-layer bind must name an existing layer,
    /// and every layer should be reachable from the default layer.
    ///
    /// When the configured default layer does not exist, the pass stops
    /// before the reachability walk: the configuration pass has already
    /// reported the error, and no unreachable-layer warnings are produced.
    #[verifier::loop_isolation(false)]
    #[verifier::rlimit(100)]
    fn check_layers(&self, result: &mut Vec<Diagnostic>)
        ensures
            old(result)@.is_prefix_of(final(result)@),
            ({
                let app = final(result)@.skip(old(result)@.len() as int);
                &&& (self.layers@.len() == 0 ==> app.len() == 1 && app[0].sig() == (DiagSig {
                    kind: DiagKind::EmptyProfile,
                    severity: Severity::Error,
                    spans: Seq::<Span>::empty(),
                }))
                &&& (self.layers@.len() > 0 ==> {
                    &&& (forall|k: int| 0 <= k < app.len() ==> layer_diag_ok(#[trigger] app[k]))
                    &&& ((forall|k: int|
                        0 <= k < app.len() ==> (#[trigger] app[k]).kind
                            != DiagKind::UnknownLayer) ==> all_refs_resolve(*self))
                    &&& count_unknown(app) == spec_unresolved_refs(*self)
                    &&& (names_unique(layer_names(*self)) ==> (forall|k: int|
                        0 <= k < app.len() ==> (#[trigger] app[k]).kind
                            != DiagKind::DuplicateLayer))
                    &&& (!default_resolves(*self) ==> (forall|k: int|
                        0 <= k < app.len() ==> (#[trigger] app[k]).kind
                            != DiagKind::UnreachableLayer))
                    &&& (default_resolves(*self) ==> (forall|t: int|
                        0 <= t < self.layers@.len() && !spec_layer_reachable(
                            *self,
                            spec_start_layer(*self),
                            t,
                        ) ==> unreachable_reported(*self, app, t)))
                    &&& (default_resolves(*self) ==> (forall|w: int|
                        0 <= w < app.len() && (#[trigger] app[w]).kind
                            == DiagKind::UnreachableLayer ==> reports_unreachable(
                            *self,
                            app[w],
                            spec_start_layer(*self),
                        )))
                })
            }),
    {
        let ghost r0 = old(result)@;
        let n = self.layers.len();
        if n == 0 {
            let d = Diagnostic::new0(
                DiagKind::EmptyProfile,
                Severity::Error,
                msg("Profile must contain at least 1 layer"),
            );
            result.push(d);
            proof {
                assert(result@.subrange(0, r0.len() as int) =~= r0);
                assert(result@.skip(r0.len() as int) =~= seq![d]);
            }
            return;
        }
        let ghost names = layer_names(*self);

        // Duplicate layer names: the first definition is canonical.
        proof {
            assert(result@.skip(r0.len() as int) =~= Seq::<Diagnostic>::empty());
            reveal_with_fuel(Seq::filter, 1);
        }
        let mut i: usize = 0;
        while i < n
            invariant
                i <= n,
                r0.is_prefix_of(result@),
                forall|k: int|
                    r0.len() <= k < result@.len() ==> layer_diag_ok(#[trigger] result@[k])
                        && result@[k].kind != DiagKind::UnreachableLayer && result@[k].kind
                        != DiagKind::UnknownLayer,
                count_unknown(result@.skip(r0.len() as int)) == 0,
                names_unique(names) ==> (forall|k: int|
                    r0.len() <= k < result@.len() ==> (#[trigger] result@[k]).kind
                        != DiagKind::DuplicateLayer),
            decreases n - i,
        {
            let mut j: usize = 0;
            let mut dup: Option<usize> = None;
            while j < i
                invariant
                    j <= i <= n,
                    i < n,
                    match dup {
                        Some(m) => m < i && names[m as int] == names[i as int],
                        None => true,
                    },
                decreases i - j,
            {
                if dup.is_none() && &self.layers[j].value.name.value
                    == &self.layers[i].value.name.value {
                    proof {
                        assert(self.layers@[j as int].value.name.value@
                            =~= self.layers@[i as int].value.name.value@);
                        assert(names[j as int] == names[i as int]);
                    }
                    dup = Some(j);
                }
                j = j + 1;
            }
            match dup {
                Some(m) => {
                    let mut message = msg("Duplicate layer name '");
                    msg_append(&mut message, &self.layers[i].value.name.value);
                    msg_append(&mut message, &msg("'"));
                    let ghost v_pre = result@;
                    let d = Diagnostic::new2(
                        DiagKind::DuplicateLayer,
                        Severity::Error,
                        message,
                        msg("original layer definition"),
                        self.layers[m].span,
                        msg("duplicate layer definition"),
                        self.layers[i].span,
                    );
                    result.push(d);
                    proof {
                        lemma_prefix_push(r0, v_pre, d);
                        lemma_count_unknown_push(v_pre.skip(r0.len() as int), d);
                        assert(result@.skip(r0.len() as int) =~= v_pre.skip(
                            r0.len() as int,
                        ).push(d));
                        assert forall|k: int|
                            0 <= k < v_pre.len() implies result@[k] == v_pre[k] by {}
                        if names_unique(names) {
                            assert(names[m as int] == names[i as int]);
                            assert(false);
                        }
                    }
                },
                None => (),
            }
            i = i + 1;
        }

        // The switch-layer graph, with an error for every unresolved name.
        let mut graph: Vec<Vec<usize>> = Vec::new();
        let mut li: usize = 0;
        while li < n
            invariant
                li <= n,
                graph@.len() == li,
                forall|gi: int, gj: int|
                    0 <= gi < graph@.len() && 0 <= gj < graph@[gi]@.len() ==> (
                    #[trigger] graph@[gi]@[gj]) < n,
                forall|gi: int, j: usize|
                    0 <= gi < li ==> ((#[trigger] graph@[gi]@.contains(j)) <==> (j < n
                        && spec_layer_edge(*self, gi, j as int))),
                r0.is_prefix_of(result@),
                forall|k: int|
                    r0.len() <= k < result@.len() ==> layer_diag_ok(#[trigger] result@[k])
                        && result@[k].kind != DiagKind::UnreachableLayer,
                (forall|k: int|
                    r0.len() <= k < result@.len() ==> (#[trigger] result@[k]).kind
                        != DiagKind::UnknownLayer) ==> (forall|k: int|
                    0 <= k < li ==> layer_refs_resolve(names, (#[trigger] self.layers@[k]).value)),
                count_unknown(result@.skip(r0.len() as int)) == spec_unresolved_in_layers(
                    names,
                    self.layers@.take(li as int),
                ),
                names_unique(names) ==> (forall|k: int|
                    r0.len() <= k < result@.len() ==> (#[trigger] result@[k]).kind
                        != DiagKind::DuplicateLayer),
            decreases n - li,
        {
            proof {
                assert(self.layers@.take(0int) =~= Seq::<Spanned<Layer>>::empty());
            }
            let mut edges: Vec<usize> = Vec::new();
            let stmts = &self.layers[li].value.statements;
            let mut si: usize = 0;
            while si < stmts.len()
                invariant
                    si <= stmts@.len(),
                    stmts == &self.layers@[li as int].value.statements,
                    li < n,
                    forall|e: int| 0 <= e < edges@.len() ==> (#[trigger] edges@[e]) < n,
                    forall|e: int|
                        0 <= e < edges@.len() ==> spec_layer_edge(
                            *self,
                            li as int,
                            (#[trigger] edges@[e]) as int,
                        ),
                    forall|k: int, m: int, j: int|
                        0 <= k < si && 0 <= m < stmts@[k].value.rhs@.len() && #[trigger] bind_edge(
                            names,
                            layer_bind(self.layers@[li as int].value, k, m),
                            j,
                        ) ==> edges@.contains(j as usize),
                    forall|gi: int, j: usize|
                        0 <= gi < li ==> ((#[trigger] graph@[gi]@.contains(j)) <==> (j < n
                            && spec_layer_edge(*self, gi, j as int))),
                    r0.is_prefix_of(result@),
                    forall|k: int|
                        r0.len() <= k < result@.len() ==> layer_diag_ok(#[trigger] result@[k])
                            && result@[k].kind != DiagKind::UnreachableLayer,
                    (forall|k: int|
                        r0.len() <= k < result@.len() ==> (#[trigger] result@[k]).kind
                            != DiagKind::UnknownLayer) ==> ((forall|k: int|
                        0 <= k < li ==> layer_refs_resolve(
                            names,
                            (#[trigger] self.layers@[k]).value,
                        )) && (forall|k: int|
                        0 <= k < si ==> stmt_resolves(names, (#[trigger] stmts@[k]).value))),
                    count_unknown(result@.skip(r0.len() as int)) == spec_unresolved_in_layers(
                        names,
                        self.layers@.take(li as int),
                    ) + spec_unresolved_in_stmts(names, stmts@.take(si as int)),
                    names_unique(names) ==> (forall|k: int|
                    r0.len() <= k < result@.len() ==> (#[trigger] result@[k]).kind
                        != DiagKind::DuplicateLayer),
                decreases stmts@.len() - si,
            {
                proof {
                    assert(stmts@.take(0int) =~= Seq::<Spanned<Statement>>::empty());
                }
                let binds = &stmts[si].value.rhs;
                let mut bi: usize = 0;
                while bi < binds.len()
                    invariant
                        bi <= binds@.len(),
                        binds == &stmts@[si as int].value.rhs,
                        si < stmts@.len(),
                        stmts == &self.layers@[li as int].value.statements,
                        li < n,
                        forall|e: int| 0 <= e < edges@.len() ==> (#[trigger] edges@[e]) < n,
                        forall|e: int|
                            0 <= e < edges@.len() ==> spec_layer_edge(
                                *self,
                                li as int,
                                (#[trigger] edges@[e]) as int,
                            ),
                        forall|k: int, m: int, j: int|
                            0 <= k < si && 0 <= m < stmts@[k].value.rhs@.len()
                                && #[trigger] bind_edge(
                                names,
                                layer_bind(self.layers@[li as int].value, k, m),
                                j,
                            ) ==> edges@.contains(j as usize),
                        forall|m: int, j: int|
                            0 <= m < bi && #[trigger] bind_edge(
                                names,
                                layer_bind(self.layers@[li as int].value, si as int, m),
                                j,
                            ) ==> edges@.contains(j as usize),
                        r0.is_prefix_of(result@),
                        forall|k: int|
                            r0.len() <= k < result@.len() ==> layer_diag_ok(#[trigger] result@[k])
                                && result@[k].kind != DiagKind::UnreachableLayer,
                        (forall|k: int|
                            r0.len() <= k < result@.len() ==> (#[trigger] result@[k]).kind
                                != DiagKind::UnknownLayer) ==> ((forall|k: int|
                            0 <= k < li ==> layer_refs_resolve(
                                names,
                                (#[trigger] self.layers@[k]).value,
                            )) && (forall|k: int|
                            0 <= k < si ==> stmt_resolves(names, (#[trigger] stmts@[k]).value))
                            && (forall|k: int|
                            0 <= k < bi ==> bind_resolves(names, (#[trigger] binds@[k]).value))),
                        count_unknown(result@.skip(r0.len() as int))
                            == spec_unresolved_in_layers(names, self.layers@.take(li as int))
                            + spec_unresolved_in_stmts(names, stmts@.take(si as int))
                            + spec_unresolved_in_binds(names, binds@.take(bi as int)),
                        names_unique(names) ==> (forall|k: int|
                    r0.len() <= k < result@.len() ==> (#[trigger] result@[k]).kind
                        != DiagKind::DuplicateLayer),
                    decreases binds@.len() - bi,
                {
                    proof {
                        assert(binds@.take(0int) =~= Seq::<Spanned<Bind>>::empty());
                    }
                    match &binds[bi].value {
                        Bind::ChangeLayer(nm) => {
                            match resolve_layer_name(&self.layers, &nm.value) {
                                Some(target) => {
                                    proof {
                                        lemma_find_layer_props(names, nm.value@);
                                        assert(name_resolves(names, nm.value@));
                                        assert(bind_resolves(names, binds@[bi as int].value));
                                        assert(binds@.take(bi + 1) =~= binds@.take(
                                            bi as int,
                                        ).push(binds@[bi as int]));
                                        lemma_unresolved_binds_push(
                                            names,
                                            binds@.take(bi as int),
                                            binds@[bi as int],
                                        );
                                    }
                                    let ghost edges_pre = edges@;
                                    edges.push(target);
                                    proof {
                                        assert(layer_bind(
                                            self.layers@[li as int].value,
                                            si as int,
                                            bi as int,
                                        ) == binds@[bi as int].value);
                                        assert(spec_find_layer(names, nm.value@) == Some(
                                            target as int,
                                        ));
                                        assert(bind_edge(
                                            names,
                                            layer_bind(
                                                self.layers@[li as int].value,
                                                si as int,
                                                bi as int,
                                            ),
                                            target as int,
                                        ));
                                        assert(spec_layer_edge(*self, li as int, target as int));
                                        assert(edges@[edges@.len() - 1] == target);
                                        assert(edges@.contains(target));
                                        assert forall|j: usize|
                                            edges_pre.contains(j) implies edges@.contains(j) by {
                                            let e = choose|e: int|
                                                0 <= e < edges_pre.len() && edges_pre[e] == j;
                                            assert(edges@[e] == j);
                                        }
                                    }
                                },
                                None => {
                                    proof {
                                        lemma_find_layer_props(names, nm.value@);
                                        assert(layer_bind(
                                            self.layers@[li as int].value,
                                            si as int,
                                            bi as int,
                                        ) == binds@[bi as int].value);
                                        assert(spec_find_layer(names, nm.value@) is None);
                                    }
                                    let mut label = msg("unknown layer: ");
                                    msg_append(&mut label, &nm.value);
                                    let ghost v_pre = result@;
                                    let d = Diagnostic::new1(
                                        DiagKind::UnknownLayer,
                                        Severity::Error,
                                        msg("reference to undefined layer"),
                                        label,
                                        nm.span,
                                    );
                                    result.push(d);
                                    proof {
                                        lemma_prefix_push(r0, v_pre, d);
                                        assert(result@[result@.len() - 1].kind
                                            == DiagKind::UnknownLayer);
                                        assert forall|k: int|
                                            0 <= k < v_pre.len() implies result@[k] == v_pre[k]
                                        by {}
                                        lemma_count_unknown_push(v_pre.skip(r0.len() as int), d);
                                        assert(result@.skip(r0.len() as int) =~= v_pre.skip(
                                            r0.len() as int,
                                        ).push(d));
                                        assert(binds@.take(bi + 1) =~= binds@.take(
                                            bi as int,
                                        ).push(binds@[bi as int]));
                                        lemma_unresolved_binds_push(
                                            names,
                                            binds@.take(bi as int),
                                            binds@[bi as int],
                                        );
                                    }
                                },
                            }
                        },
                        _ => {
                            proof {
                                assert(bind_resolves(names, binds@[bi as int].value));
                                assert(layer_bind(
                                    self.layers@[li as int].value,
                                    si as int,
                                    bi as int,
                                ) == binds@[bi as int].value);
                                assert(binds@.take(bi + 1) =~= binds@.take(bi as int).push(
                                    binds@[bi as int],
                                ));
                                lemma_unresolved_binds_push(
                                    names,
                                    binds@.take(bi as int),
                                    binds@[bi as int],
                                );
                            }
                        },
                    }
                    bi = bi + 1;
                }
                proof {
                    if forall|k: int|
                        r0.len() <= k < result@.len() ==> (#[trigger] result@[k]).kind
                            != DiagKind::UnknownLayer {
                        assert forall|jj: int|
                            0 <= jj < stmts@[si as int].value.rhs@.len() implies bind_resolves(
                            names,
                            (#[trigger] stmts@[si as int].value.rhs@[jj]).value,
                        ) by {
                            assert(binds@[jj] == stmts@[si as int].value.rhs@[jj]);
                        }
                        assert(stmt_resolves(names, stmts@[si as int].value));
                    }
                    assert(binds@.take(binds@.len() as int) =~= binds@);
                    assert(stmts@.take(si + 1) =~= stmts@.take(si as int).push(
                        stmts@[si as int],
                    ));
                    lemma_unresolved_stmts_push(names, stmts@.take(si as int), stmts@[si as int]);
                    assert(stmts@[si as int].value.rhs@ == binds@);
                }
                si = si + 1;
            }
            proof {
                if forall|k: int|
                    r0.len() <= k < result@.len() ==> (#[trigger] result@[k]).kind
                        != DiagKind::UnknownLayer {
                    assert forall|kk: int|
                        0 <= kk < stmts@.len() implies stmt_resolves(
                        names,
                        (#[trigger] stmts@[kk]).value,
                    ) by {}
                    assert(layer_refs_resolve(names, self.layers@[li as int].value));
                }
                assert(stmts@.take(stmts@.len() as int) =~= stmts@);
                assert(self.layers@.take(li + 1) =~= self.layers@.take(li as int).push(
                    self.layers@[li as int],
                ));
                lemma_unresolved_layers_push(
                    names,
                    self.layers@.take(li as int),
                    self.layers@[li as int],
                );
                assert(self.layers@[li as int].value.statements@ == stmts@);
            }
            graph.push(edges);
            li = li + 1;
        }
        proof {
            assert(graph_wf(graph@));
            if forall|k: int|
                r0.len() <= k < result@.len() ==> (#[trigger] result@[k]).kind
                    != DiagKind::UnknownLayer {
                assert(all_refs_resolve(*self));
            }
        }

        // The default layer resolves the reachability start node.
        let entries = &self.config.value.entries;
        let ghost evals = self.config.value.entry_values();
        let mut first_dl: Option<Vec<u8>> = None;
        let mut ei: usize = 0;
        proof {
            assert(evals.take(0int) =~= Seq::<ConfigEntry>::empty());
        }
        while ei < entries.len()
            invariant
                ei <= entries@.len(),
                match first_dl {
                    Some(nm) => spec_first_default(evals.take(ei as int)) == Some(nm@),
                    None => spec_first_default(evals.take(ei as int)) is None,
                },
            decreases entries@.len() - ei,
        {
            let ghost vals_pre = evals.take(ei as int);
            if first_dl.is_none() {
                match &entries[ei].value {
                    ConfigEntry::DefaultLayer(v) => {
                        first_dl = Some(crate::utils::copy_bytes(&v.value));
                    },
                    _ => (),
                }
            }
            ei = ei + 1;
            proof {
                assert(evals.take(ei as int) =~= vals_pre.push(evals[ei - 1]));
                lemma_first_default_push(vals_pre, evals[ei - 1]);
            }
        }
        proof {
            assert(evals.take(entries@.len() as int) =~= evals);
        }
        let start: usize = match &first_dl {
            Some(nm) => {
                match resolve_layer_name(&self.layers, nm) {
                    Some(idx) => {
                        proof {
                            lemma_find_layer_props(names, nm@);
                        }
                        idx
                    },
                    None => {
                        // Reported by the configuration pass; stop here so
                        // no unreachable-layer warnings follow the error.
                        proof {
                            lemma_find_layer_props(names, nm@);
                            let app = result@.skip(r0.len() as int);
                            assert(self.layers@.len() > 0);
                            assert forall|k: int|
                                0 <= k < app.len() implies layer_diag_ok(#[trigger] app[k]) && app[k].kind
                                != DiagKind::UnreachableLayer by {
                                assert(app[k] == result@[r0.len() + k]);
                            }
                            if names_unique(layer_names(*self)) {
                                assert forall|k: int|
                                    0 <= k < app.len() implies (#[trigger] app[k]).kind
                                    != DiagKind::DuplicateLayer by {
                                    assert(app[k] == result@[r0.len() + k]);
                                }
                            }
                            if forall|k: int|
                                0 <= k < app.len() ==> (#[trigger] app[k]).kind != DiagKind::UnknownLayer {
                                assert forall|k: int|
                                    r0.len() <= k < result@.len() implies (#[trigger] result@[k]).kind
                                    != DiagKind::UnknownLayer by {
                                    assert(result@[k] == app[k - r0.len()]);
                                }
                                assert(all_refs_resolve(*self));
                            }
                            assert(!name_resolves(names, nm@));
                            assert(!default_resolves(*self));
                            assert(self.layers@.take(n as int) =~= self.layers@);
                            assert(count_unknown(result@.skip(r0.len() as int))
                                == spec_unresolved_refs(*self));
                        }
                        return;
                    },
                }
            },
            None => 0,
        };
        proof {
            assert(default_resolves(*self));
            assert(start as int == spec_start_layer(*self));
            assert(self.layers@.take(n as int) =~= self.layers@);
            assert(count_unknown(result@.skip(r0.len() as int)) == spec_unresolved_refs(*self));
        }

        // Reachability from the default layer.
        let unreachable = Profile::find_unreachable_layers(&graph, start);
        proof {
            assert forall|t: usize|
                t < n implies (spec_reachable(graph@, start, t) <==> spec_layer_reachable(
                *self,
                start as int,
                t as int,
            )) by {
                lemma_graph_models_edges(*self, graph@, start, t);
            }
        }
        let mut q: usize = 0;
        while q < unreachable.len()
            invariant
                q <= unreachable@.len(),
                graph@.len() == n,
                start < n,
                start as int == spec_start_layer(*self),
                forall|k: int|
                    0 <= k < unreachable@.len() ==> (#[trigger] unreachable@[k]) < n,
                forall|k: int|
                    0 <= k < unreachable@.len() ==> !spec_reachable(
                        graph@,
                        start,
                        #[trigger] unreachable@[k],
                    ),
                forall|t: usize|
                    t < n ==> (spec_reachable(graph@, start, t) <==> spec_layer_reachable(
                        *self,
                        start as int,
                        t as int,
                    )),
                r0.is_prefix_of(result@),
                forall|k: int|
                    r0.len() <= k < result@.len() ==> layer_diag_ok(#[trigger] result@[k]),
                (forall|k: int|
                    r0.len() <= k < result@.len() ==> (#[trigger] result@[k]).kind
                        != DiagKind::UnknownLayer) ==> all_refs_resolve(*self),
                forall|w: int|
                    r0.len() <= w < result@.len() && (#[trigger] result@[w]).kind
                        == DiagKind::UnreachableLayer ==> exists|t: int|
                        0 <= t < n && !spec_layer_reachable(*self, spec_start_layer(*self), t)
                            && result@[w].sig().spans == seq![self.layers@[t].span],
                forall|x: int|
                    0 <= x < q ==> exists|w: int|
                        r0.len() <= w < result@.len() && result@[w].kind
                            == DiagKind::UnreachableLayer && result@[w].sig().spans == seq![
                            self.layers@[(#[trigger] unreachable@[x]) as int].span,
                        ],
                count_unknown(result@.skip(r0.len() as int)) == spec_unresolved_refs(*self),
                names_unique(names) ==> (forall|k: int|
                    r0.len() <= k < result@.len() ==> (#[trigger] result@[k]).kind
                        != DiagKind::DuplicateLayer),
            decreases unreachable@.len() - q,
        {
            let idx = unreachable[q];
            let mut label = msg("unreachable layer: ");
            msg_append(&mut label, &self.layers[idx].value.name.value);
            let ghost v_pre = result@;
            let mut d = Diagnostic::new1(
                DiagKind::UnreachableLayer,
                Severity::Warning,
                msg("Layer can never be reached"),
                label,
                self.layers[idx].span,
            );
            d.help = Some(msg("Add a remapping to switch to this layer"));
            result.push(d);
            proof {
                lemma_prefix_push(r0, v_pre, d);
                assert forall|k: int|
                    0 <= k < v_pre.len() implies result@[k] == v_pre[k] by {}
                assert(result@[result@.len() - 1] == d);
                assert(d.sig().spans == seq![self.layers@[idx as int].span]);
                assert(!spec_reachable(graph@, start, idx));
                assert(!spec_layer_reachable(*self, start as int, idx as int));
                lemma_count_unknown_push(v_pre.skip(r0.len() as int), d);
                assert(result@.skip(r0.len() as int) =~= v_pre.skip(r0.len() as int).push(d));
            }
            q = q + 1;
        }
        proof {
            let app = result@.skip(r0.len() as int);
            assert(self.layers@.len() > 0);
            assert(default_resolves(*self));
            assert forall|k: int|
                0 <= k < app.len() implies layer_diag_ok(#[trigger] app[k]) by {
                assert(app[k] == result@[r0.len() + k]);
            }
            if names_unique(layer_names(*self)) {
                assert forall|k: int|
                    0 <= k < app.len() implies (#[trigger] app[k]).kind
                    != DiagKind::DuplicateLayer by {
                    assert(app[k] == result@[r0.len() + k]);
                }
            }
            if forall|k: int|
                0 <= k < app.len() ==> (#[trigger] app[k]).kind != DiagKind::UnknownLayer {
                assert forall|k: int|
                    r0.len() <= k < result@.len() implies (#[trigger] result@[k]).kind
                    != DiagKind::UnknownLayer by {
                    assert(result@[k] == app[k - r0.len()]);
                }
                assert(all_refs_resolve(*self));
            }
            assert forall|t: int|
                0 <= t < self.layers@.len() && !spec_layer_reachable(
                    *self,
                    spec_start_layer(*self),
                    t,
                ) implies unreachable_reported(*self, app, t) by {
                assert(!spec_reachable(graph@, start, t as usize));
                assert(unreachable@.contains(t as usize));
                let x = choose|x: int|
                    0 <= x < unreachable@.len() && unreachable@[x] == t as usize;
                let w = choose|w: int|
                    r0.len() <= w < result@.len() && result@[w].kind
                        == DiagKind::UnreachableLayer && result@[w].sig().spans == seq![
                        self.layers@[unreachable@[x] as int].span,
                    ];
                assert(app[w - r0.len()] == result@[w]);
                assert(app[w - r0.len()].kind == DiagKind::UnreachableLayer);
                assert(app[w - r0.len()].sig().spans == seq![self.layers@[t].span]);
            }
            assert forall|w: int|
                0 <= w < app.len() && (#[trigger] app[w]).kind
                    == DiagKind::UnreachableLayer implies reports_unreachable(
                *self,
                app[w],
                spec_start_layer(*self),
            ) by {
                assert(result@[r0.len() + w] == app[w]);
                let t = choose|t: int|
                    0 <= t < n && !spec_layer_reachable(*self, spec_start_layer(*self), t)
                        && result@[r0.len() + w].sig().spans == seq![self.layers@[t].span];
                assert(app[w].sig().spans == seq![self.layers@[t].span]);
            }
        }
    }

    /// Checks a parsed profile, producing every semantic diagnostic without
    /// mutating the tree. A profile whose diagnostics hold no error is valid
    /// and safe to lower.
    #[verifier::rlimit(60)]
    pub fn check(&self) -> (result: Vec<Diagnostic>)
        ensures
            !has_error(result@) ==> wf_checked(*self),
            self.layers@.len() == 0 ==> has_error(result@),
            !default_resolves(*self) ==> has_error(result@) && (forall|k: int|
                0 <= k < result@.len() ==> (#[trigger] result@[k]).kind
                    != DiagKind::UnreachableLayer),
            (self.layers@.len() > 0 && default_resolves(*self)) ==> (forall|t: int|
                0 <= t < self.layers@.len() && !spec_layer_reachable(
                    *self,
                    spec_start_layer(*self),
                    t,
                ) ==> unreachable_reported(*self, result@, t)),
            (self.layers@.len() > 0 && default_resolves(*self)) ==> (forall|w: int|
                0 <= w < result@.len() && (#[trigger] result@[w]).kind
                    == DiagKind::UnreachableLayer ==> reports_unreachable(
                    *self,
                    result@[w],
                    spec_start_layer(*self),
                )),
            (self.layers@.len() > 0 && default_resolves(*self) && spec_unresolved_refs(*self)
                == 0 && names_unique(layer_names(*self))) ==> !has_error(result@),
            self.layers@.len() == 0 ==> (exists|k: int|
                0 <= k < result@.len() && (#[trigger] result@[k]).sig() == (DiagSig {
                    kind: DiagKind::EmptyProfile,
                    severity: Severity::Error,
                    spans: Seq::<Span>::empty(),
                })),
            (self.layers@.len() > 0 && !default_resolves(*self)) ==> (exists|k: int|
                0 <= k < result@.len() && (#[trigger] result@[k]).sig() == (DiagSig {
                    kind: DiagKind::MissingDefaultLayer,
                    severity: Severity::Error,
                    spans: seq![spec_first_default_span(self.config.value.entries@)],
                })),
            exists|nc: int|
                0 <= nc <= result@.len() && crate::diag::sigs(#[trigger] result@.take(nc))
                    == spec_config_diags(self.config.value.entries@, layer_names(*self)),
    {
        let mut result: Vec<Diagnostic> = Vec::new();
        proof {
            assert(result@ =~= Seq::<Diagnostic>::empty());
        }
        self.config.value.check(self, &mut result);
        let ghost v1 = result@;
        self.check_layers(&mut result);
        proof {
            let app1 = v1.skip(0);
            assert(app1 =~= v1);
            let app2 = result@.skip(v1.len() as int);
            assert(result@ =~= v1 + app2);
            if !has_error(result@) {
                assert forall|k: int| 0 <= k < v1.len() implies !(#[trigger] v1[k]).is_error() by {
                    assert(result@[k] == v1[k]);
                }
                assert(!has_error(v1));
                assert forall|k: int|
                    0 <= k < app2.len() implies !(#[trigger] app2[k]).is_error() by {
                    assert(result@[v1.len() + k] == app2[k]);
                }
                if self.layers@.len() == 0 {
                    assert(app2[0].is_error());
                }
                assert(self.layers@.len() > 0);
                assert forall|k: int|
                    0 <= k < app2.len() implies (#[trigger] app2[k]).kind
                    != DiagKind::UnknownLayer by {
                    if app2[k].kind == DiagKind::UnknownLayer {
                        assert(layer_diag_ok(app2[k]));
                        assert(app2[k].is_error());
                    }
                }
                assert(all_refs_resolve(*self));
                if !default_resolves(*self) {
                    assert(has_error(v1));
                }
            }
            if self.layers@.len() == 0 {
                assert(app2[0].is_error());
                assert(result@[v1.len() as int].is_error());
            }
            if self.layers@.len() > 0 && default_resolves(*self) {
                assert forall|t: int|
                    0 <= t < self.layers@.len() && !spec_layer_reachable(
                        *self,
                        spec_start_layer(*self),
                        t,
                    ) implies unreachable_reported(*self, result@, t) by {
                    assert(unreachable_reported(*self, app2, t));
                    let w = choose|w: int|
                        0 <= w < app2.len() && app2[w].kind == DiagKind::UnreachableLayer
                            && app2[w].sig().spans == seq![self.layers@[t].span];
                    assert(result@[v1.len() + w] == app2[w]);
                }
                assert forall|w: int|
                    0 <= w < result@.len() && (#[trigger] result@[w]).kind
                        == DiagKind::UnreachableLayer implies reports_unreachable(
                    *self,
                    result@[w],
                    spec_start_layer(*self),
                ) by {
                    if w < v1.len() {
                        assert(result@[w] == v1[w]);
                        assert(config_diag_ok(v1[w]));
                        assert(false);
                    } else {
                        assert(result@[w] == app2[w - v1.len()]);
                        assert(reports_unreachable(
                            *self,
                            app2[w - v1.len()],
                            spec_start_layer(*self),
                        ));
                    }
                }
            }
            assert(result@.take(v1.len() as int) =~= v1);
            assert(crate::diag::sigs(v1) == spec_config_diags(
                self.config.value.entries@,
                layer_names(*self),
            ));
            if self.layers@.len() > 0 && default_resolves(*self) && spec_unresolved_refs(*self)
                == 0 && names_unique(layer_names(*self)) {
                assert(!has_error(v1));
                assert(count_unknown(app2) == spec_unresolved_refs(*self));
                lemma_count_unknown_zero(app2);
                assert forall|k: int| 0 <= k < app2.len() implies !(#[trigger] app2[k]).is_error()
                by {
                    assert(layer_diag_ok(app2[k]));
                    assert(app2[k].kind != DiagKind::UnknownLayer);
                    assert(app2[k].kind != DiagKind::DuplicateLayer);
                }
                if has_error(result@) {
                    let k = choose|k: int| 0 <= k < result@.len() && result@[k].is_error();
                    if k < v1.len() {
                        assert(v1[k].is_error());
                    } else {
                        assert(result@[k] == app2[k - v1.len()]);
                    }
                    assert(false);
                }
            }
            if self.layers@.len() == 0 {
                assert(result@[v1.len() as int] == app2[0]);
                assert(result@[v1.len() as int].sig() == (DiagSig {
                    kind: DiagKind::EmptyProfile,
                    severity: Severity::Error,
                    spans: Seq::<Span>::empty(),
                }));
            }
            if self.layers@.len() > 0 && !default_resolves(*self) {
                let entries = self.config.value.entries@;
                let scan = spec_config_scan(seen_none(), entries);
                assert(entries.map_values(|e: Spanned<ConfigEntry>| e.value)
                    =~= self.config.value.entry_values());
                assert(spec_first_default(entries.map_values(|e: Spanned<ConfigEntry>| e.value))
                    == spec_first_default(self.config.value.entry_values()));
                match spec_first_default(self.config.value.entry_values()) {
                    Some(nm) => {
                        assert(!name_resolves(layer_names(*self), nm));
                    },
                    None => {
                        assert(default_resolves(*self));
                        assert(false);
                    },
                }
                let msig = DiagSig {
                    kind: DiagKind::MissingDefaultLayer,
                    severity: Severity::Error,
                    spans: seq![spec_first_default_span(entries)],
                };
                assert(spec_config_diags(entries, layer_names(*self)) == scan + (match
                spec_first_default(entries.map_values(|e: Spanned<ConfigEntry>| e.value)) {
                    Some(nm2) => if !name_resolves(layer_names(*self), nm2) {
                        seq![msig]
                    } else {
                        Seq::<DiagSig>::empty()
                    },
                    None => Seq::<DiagSig>::empty(),
                }));
                assert(spec_config_diags(entries, layer_names(*self)) =~~= scan + seq![msig]);
                assert(crate::diag::sigs(v1).len() == scan.len() + 1);
                assert(crate::diag::sigs(v1)[scan.len() as int] == (scan + seq![msig])[
                    scan.len() as int
                ]);
                assert(crate::diag::sigs(v1)[scan.len() as int] == msig);
                assert(v1[scan.len() as int].sig() == msig);
                assert(result@[scan.len() as int] == v1[scan.len() as int]);
            }
            if !default_resolves(*self) {
                assert(has_error(v1));
                let k = choose|k: int| 0 <= k < v1.len() && v1[k].is_error();
                assert(result@[k] == v1[k]);
                assert(has_error(result@));
                assert forall|k2: int|
                    0 <= k2 < result@.len() implies (#[trigger] result@[k2]).kind
                    != DiagKind::UnreachableLayer by {
                    if k2 < v1.len() {
                        assert(config_diag_ok(v1[k2]));
                        assert(result@[k2] == v1[k2]);
                    } else {
                        assert(result@[k2] == app2[k2 - v1.len()]);
                        if self.layers@.len() == 0 {
                            assert(app2[k2 - v1.len()].sig().kind == DiagKind::EmptyProfile);
                        } else {
                            assert(app2[k2 - v1.len()].kind != DiagKind::UnreachableLayer);
                        }
                    }
                }
            }
        }
        result
    }
}

} // verus!
