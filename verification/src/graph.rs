//! The dependency graph of the tasks of a Mossfile, and the order in which a task and
//! its prerequisites run.
//!
//! An edge `a → b` reads "task `a` depends on task `b`": `b` runs first. The graph maps
//! each task name to the names it lists in `deps=[…]`; a name declared twice keeps the
//! later declaration. The order is found with Kahn's algorithm over the tasks that the
//! target reaches; a dependency listed twice counts once.
use vstd::prelude::*;

use crate::ast::{Mossfile, TaskView};
use crate::run_error::RunError;
use crate::text::str_eq;

verus! {

// ── The graph as a map ───────────────────────────────────────────────────────

/// The map that inserting `(names[i], deps[i])` for `i` in `0..n`, in that order,
/// builds: a later entry for a name replaces an earlier one.
pub open spec fn insert_entries(
    names: Seq<Seq<char>>,
    deps: Seq<Seq<Seq<char>>>,
    n: int,
) -> Map<Seq<char>, Seq<Seq<char>>>
    decreases n,
{
    if n <= 0 {
        Map::empty()
    } else {
        insert_entries(names, deps, n - 1).insert(names[n - 1], deps[n - 1])
    }
}

/// The graph of `tasks`: each task's name mapped to its dependencies.
pub open spec fn graph_of(tasks: Seq<TaskView>) -> Map<Seq<char>, Seq<Seq<char>>> {
    insert_entries(
        tasks.map_values(|t: TaskView| t.name),
        tasks.map_values(|t: TaskView| t.flags.deps),
        tasks.len() as int,
    )
}

/// The dependencies that `m` records for `a`; none when `a` has no entry.
pub open spec fn deps_in(m: Map<Seq<char>, Seq<Seq<char>>>, a: Seq<char>) -> Seq<Seq<char>> {
    if m.contains_key(a) {
        m[a]
    } else {
        Seq::empty()
    }
}

/// The step of `p` from position `k` to `k + 1` goes from a task to one of its
/// dependencies.
pub open spec fn walk_step(m: Map<Seq<char>, Seq<Seq<char>>>, p: Seq<Seq<char>>, k: int) -> bool {
    deps_in(m, p[k]).contains(p[k + 1])
}

/// `p` follows dependencies from its first name to its last (possibly a single name).
pub open spec fn is_walk(m: Map<Seq<char>, Seq<Seq<char>>>, p: Seq<Seq<char>>) -> bool {
    &&& p.len() >= 1
    &&& forall|k: int| 0 <= k < p.len() - 1 ==> #[trigger] walk_step(m, p, k)
}

/// Following dependencies from `a` leads to `b` (every name leads to itself).
pub open spec fn leads_to(m: Map<Seq<char>, Seq<Seq<char>>>, a: Seq<char>, b: Seq<char>) -> bool {
    exists|p: Seq<Seq<char>>| is_walk(m, p) && p[0] == a && p.last() == b
}

/// No walk of at least one step leads from a name back to itself.
pub open spec fn acyclic(m: Map<Seq<char>, Seq<Seq<char>>>) -> bool {
    forall|p: Seq<Seq<char>>| is_walk(m, p) && p.len() >= 2 ==> p[0] != p.last()
}

// ── Execution orders ─────────────────────────────────────────────────────────

/// Every dependency of the task at position `i` of `order` comes earlier in `order`.
pub open spec fn deps_listed_before(
    m: Map<Seq<char>, Seq<Seq<char>>>,
    order: Seq<Seq<char>>,
    i: int,
) -> bool {
    forall|d: Seq<char>|
        #[trigger] deps_in(m, order[i]).contains(d) ==> order.subrange(0, i).contains(d)
}

/// A task that cannot be ordered among those of `listed`: it depends on a task that is
/// not in `listed`.
pub open spec fn blocked(
    m: Map<Seq<char>, Seq<Seq<char>>>,
    listed: Seq<Seq<char>>,
    x: Seq<char>,
) -> bool {
    exists|d: Seq<char>| #[trigger] deps_in(m, x).contains(d) && !listed.contains(d)
}

/// `order` is what running `target` executes, as Kahn's algorithm finds it: the tasks
/// that `target` leads to and that can be ordered, each after its dependencies, then
/// `target` itself, last. Every task that `target` leads to and that is left out is
/// blocked by the tasks listed before `target`.
pub open spec fn is_execution_order(
    m: Map<Seq<char>, Seq<Seq<char>>>,
    target: Seq<char>,
    order: Seq<Seq<char>>,
) -> bool {
    &&& order.len() >= 1
    &&& order.last() == target
    &&& order.no_duplicates()
    &&& forall|i: int| 0 <= i < order.len() ==> leads_to(m, target, #[trigger] order[i])
    &&& forall|i: int| 0 <= i < order.len() - 1 ==> #[trigger] deps_listed_before(m, order, i)
    &&& forall|x: Seq<char>|
        leads_to(m, target, x) && !order.contains(x) ==> #[trigger] blocked(
            m,
            order.drop_last(),
            x,
        )
}

// ── Lemmas on the map ────────────────────────────────────────────────────────

proof fn lemma_insert_entries_last(
    names: Seq<Seq<char>>,
    deps: Seq<Seq<Seq<char>>>,
    n: int,
    i: int,
)
    requires
        0 <= i < n,
        forall|j: int| i < j < n ==> names[j] != names[i],
    ensures
        insert_entries(names, deps, n).contains_key(names[i]),
        insert_entries(names, deps, n)[names[i]] == deps[i],
    decreases n,
{
    if n - 1 > i {
        lemma_insert_entries_last(names, deps, n - 1, i);
    }
}

proof fn lemma_insert_entries_absent(
    names: Seq<Seq<char>>,
    deps: Seq<Seq<Seq<char>>>,
    n: int,
    x: Seq<char>,
)
    requires
        forall|j: int| 0 <= j < n ==> names[j] != x,
    ensures
        !insert_entries(names, deps, n).contains_key(x),
    decreases n,
{
    if n > 0 {
        lemma_insert_entries_absent(names, deps, n - 1, x);
    }
}

proof fn lemma_insert_entries_finite(names: Seq<Seq<char>>, deps: Seq<Seq<Seq<char>>>, n: int)
    ensures
        insert_entries(names, deps, n).dom().finite(),
    decreases n,
{
    if n > 0 {
        lemma_insert_entries_finite(names, deps, n - 1);
    }
}

/// A walk followed by one more step.
proof fn lemma_walk_extend(m: Map<Seq<char>, Seq<Seq<char>>>, p: Seq<Seq<char>>, b: Seq<char>)
    requires
        is_walk(m, p),
        deps_in(m, p.last()).contains(b),
    ensures
        is_walk(m, p.push(b)),
{
    let q = p.push(b);
    assert forall|k: int| 0 <= k < q.len() - 1 implies #[trigger] walk_step(m, q, k) by {
        if k < p.len() - 1 {
            assert(walk_step(m, p, k));
        }
    }
}

/// Whatever `a` leads to, each dependency of it leads to as well.
proof fn lemma_leads_to_step(m: Map<Seq<char>, Seq<Seq<char>>>, a: Seq<char>, x: Seq<char>, d: Seq<char>)
    requires
        leads_to(m, a, x),
        deps_in(m, x).contains(d),
    ensures
        leads_to(m, a, d),
{
    let p = choose|p: Seq<Seq<char>>| is_walk(m, p) && p[0] == a && p.last() == x;
    lemma_walk_extend(m, p, d);
    let q = p.push(d);
    assert(is_walk(m, q) && q[0] == a && q.last() == d);
}

/// A set of names that holds `a` and, with each of its names, that name's
/// dependencies, holds every name that `a` leads to.
proof fn lemma_closed_holds_reachable(
    m: Map<Seq<char>, Seq<Seq<char>>>,
    s: Seq<Seq<char>>,
    p: Seq<Seq<char>>,
)
    requires
        is_walk(m, p),
        s.contains(p[0]),
        forall|v: Seq<char>, d: Seq<char>|
            s.contains(v) && #[trigger] deps_in(m, v).contains(d) ==> s.contains(d),
    ensures
        s.contains(p.last()),
    decreases p.len(),
{
    if p.len() > 1 {
        let q = p.drop_last();
        assert forall|k: int| 0 <= k < q.len() - 1 implies #[trigger] walk_step(m, q, k) by {
            assert(walk_step(m, p, k));
        }
        lemma_closed_holds_reachable(m, s, q);
        assert(walk_step(m, p, p.len() - 2));
    }
}

/// The dependency lists `deps[0..n]`, one after another.
pub open spec fn all_deps(deps: Seq<Seq<Seq<char>>>, n: int) -> Seq<Seq<char>>
    decreases n,
{
    if n <= 0 {
        Seq::empty()
    } else {
        all_deps(deps, n - 1) + deps[n - 1]
    }
}

proof fn lemma_all_deps_grow(deps: Seq<Seq<Seq<char>>>, n: int, k: int, x: Seq<char>)
    requires
        0 <= k <= n,
        all_deps(deps, k).contains(x),
    ensures
        all_deps(deps, n).contains(x),
    decreases n - k,
{
    if n > k {
        lemma_all_deps_grow(deps, n - 1, k, x);
        let a = all_deps(deps, n - 1);
        let j = choose|j: int| 0 <= j < a.len() && a[j] == x;
        assert((a + deps[n - 1])[j] == x);
    }
}

/// Every dependency that the map records lies in the concatenated dependency lists.
proof fn lemma_deps_in_all_deps(
    names: Seq<Seq<char>>,
    deps: Seq<Seq<Seq<char>>>,
    n: int,
    a: Seq<char>,
    x: Seq<char>,
)
    requires
        n >= 0,
        insert_entries(names, deps, n).contains_key(a),
        insert_entries(names, deps, n)[a].contains(x),
    ensures
        all_deps(deps, n).contains(x),
    decreases n,
{
    if names[n - 1] == a {
        let b = all_deps(deps, n - 1);
        let dn = deps[n - 1];
        let j = choose|j: int| 0 <= j < dn.len() && dn[j] == x;
        assert((b + dn)[b.len() + j] == x);
    } else {
        lemma_deps_in_all_deps(names, deps, n - 1, a, x);
        lemma_all_deps_grow(deps, n, n - 1, x);
    }
}

/// How many positions of `u` hold a name that `v` does not.
pub open spec fn count_unvisited(u: Seq<Seq<char>>, v: Seq<Seq<char>>) -> nat
    decreases u.len(),
{
    if u.len() == 0 {
        0
    } else {
        count_unvisited(u.drop_last(), v) + if v.contains(u.last()) {
            0nat
        } else {
            1nat
        }
    }
}

proof fn lemma_count_unvisited_push(u: Seq<Seq<char>>, v: Seq<Seq<char>>, x: Seq<char>)
    ensures
        count_unvisited(u, v.push(x)) <= count_unvisited(u, v),
        u.contains(x) && !v.contains(x) ==> count_unvisited(u, v.push(x)) < count_unvisited(u, v),
    decreases u.len(),
{
    if u.len() > 0 {
        lemma_count_unvisited_push(u.drop_last(), v, x);
        assert(v.contains(u.last()) ==> v.push(x).contains(u.last())) by {
            if v.contains(u.last()) {
                let j = choose|j: int| 0 <= j < v.len() && v[j] == u.last();
                assert(v.push(x)[j] == u.last());
            }
        }
        assert(v.push(x)[v.len() as int] == x);
        if u.contains(x) && !v.contains(x) && u.last() != x {
            let j = choose|j: int| 0 <= j < u.len() && u[j] == x;
            assert(u.drop_last()[j] == x);
        }
    }
}

// ── Lemmas for Kahn's algorithm ─────────────────────────────────────────────

/// The names at positions `q` of `names`.
pub open spec fn names_at(names: Seq<Seq<char>>, q: Seq<usize>) -> Seq<Seq<char>> {
    q.map_values(|k: usize| names[k as int])
}

/// The distinct names of `done` that `deps` lists: the dependencies already satisfied.
pub open spec fn hits(done: Seq<Seq<char>>, deps: Seq<Seq<char>>) -> Set<Seq<char>> {
    done.to_set().intersect(deps.to_set())
}

/// Kahn's order `ov` of the tasks that `target` leads to: distinct, each task after its
/// dependencies, and every task left out blocked by those listed.
pub open spec fn kahn_order(
    m: Map<Seq<char>, Seq<Seq<char>>>,
    target: Seq<char>,
    ov: Seq<Seq<char>>,
) -> bool {
    &&& ov.no_duplicates()
    &&& forall|k: int| 0 <= k < ov.len() ==> leads_to(m, target, #[trigger] ov[k])
    &&& forall|k: int| 0 <= k < ov.len() ==> #[trigger] deps_listed_before(m, ov, k)
    &&& forall|x: Seq<char>|
        leads_to(m, target, x) && !ov.contains(x) ==> #[trigger] blocked(m, ov, x)
}

/// The dependencies of the task at position `k` of the queue `q` were all emitted
/// before it.
pub open spec fn ready_at(
    m: Map<Seq<char>, Seq<Seq<char>>>,
    rv: Seq<Seq<char>>,
    q: Seq<usize>,
    k: int,
) -> bool {
    forall|d: Seq<char>|
        #[trigger] deps_in(m, rv[q[k] as int]).contains(d) ==> names_at(rv, q.subrange(0, k)).contains(d)
}

proof fn lemma_hits_bound(done: Seq<Seq<char>>, deps: Seq<Seq<char>>)
    ensures
        hits(done, deps).finite(),
        hits(done, deps).len() <= deps.to_set().len(),
        hits(done, deps).len() == deps.to_set().len() <==> forall|d: Seq<char>|
            deps.contains(d) ==> done.contains(d),
{
    broadcast use vstd::seq_lib::seq_to_set_is_finite;

    let h = hits(done, deps);
    assert(h.subset_of(deps.to_set()));
    vstd::set_lib::lemma_len_subset(h, deps.to_set());
    if h.len() == deps.to_set().len() {
        vstd::set_lib::lemma_subset_equality(h, deps.to_set());
        assert forall|d: Seq<char>| deps.contains(d) implies done.contains(d) by {
            assert(deps.to_set().contains(d));
            assert(h.contains(d));
        }
    }
    if forall|d: Seq<char>| deps.contains(d) ==> done.contains(d) {
        assert(h =~= deps.to_set());
    }
}

proof fn lemma_hits_push(done: Seq<Seq<char>>, deps: Seq<Seq<char>>, x: Seq<char>)
    requires
        !done.contains(x),
    ensures
        deps.contains(x) ==> hits(done.push(x), deps).len() == hits(done, deps).len() + 1,
        !deps.contains(x) ==> hits(done.push(x), deps) == hits(done, deps),
{
    broadcast use vstd::seq_lib::seq_to_set_is_finite;
    broadcast use vstd::set::group_set_axioms;

    done.lemma_push_to_set_commute(x);
    lemma_hits_bound(done, deps);
    if deps.contains(x) {
        assert(!hits(done, deps).contains(x));
        assert(hits(done.push(x), deps) =~= hits(done, deps).insert(x));
    } else {
        assert(hits(done.push(x), deps) =~= hits(done, deps));
    }
}

proof fn lemma_distinct_below(q: Seq<usize>, r: int)
    requires
        q.no_duplicates(),
        forall|k: int| 0 <= k < q.len() ==> q[k] < r,
        r >= 0,
    ensures
        q.len() <= r,
{
    let qi = q.map_values(|x: usize| x as int);
    assert(qi.no_duplicates()) by {
        assert forall|a: int, b: int| 0 <= a < qi.len() && 0 <= b < qi.len() && a != b implies qi[a]
            != qi[b] by {
            assert(q[a] != q[b]);
        }
    }
    qi.unique_seq_to_set();
    vstd::set_lib::lemma_int_range(0, r);
    assert(qi.to_set().subset_of(vstd::set_lib::set_int_range(0, r))) by {
        assert forall|v: int| qi.to_set().contains(v) implies vstd::set_lib::set_int_range(
            0,
            r,
        ).contains(v) by {
            let k = choose|k: int| 0 <= k < qi.len() && qi[k] == v;
            assert(q[k] < r);
        }
    }
    vstd::set_lib::lemma_len_subset(qi.to_set(), vstd::set_lib::set_int_range(0, r));
}

proof fn lemma_names_at_prefix(rv: Seq<Seq<char>>, q: Seq<usize>, a: int, b: int, d: Seq<char>)
    requires
        0 <= a <= b <= q.len(),
        names_at(rv, q.subrange(0, a)).contains(d),
    ensures
        names_at(rv, q.subrange(0, b)).contains(d),
{
    let na = names_at(rv, q.subrange(0, a));
    let k = choose|k: int| 0 <= k < na.len() && na[k] == d;
    assert(names_at(rv, q.subrange(0, b))[k] == d);
}

/// In an order where every task follows its dependencies, whatever a listed task leads
/// to is listed no later than it, and strictly earlier after at least one step.
proof fn lemma_walk_in_order(
    m: Map<Seq<char>, Seq<Seq<char>>>,
    ov: Seq<Seq<char>>,
    p: Seq<Seq<char>>,
    k0: int,
)
    requires
        forall|k: int| 0 <= k < ov.len() ==> #[trigger] deps_listed_before(m, ov, k),
        is_walk(m, p),
        0 <= k0 < ov.len(),
        p[0] == ov[k0],
    ensures
        exists|k: int| 0 <= k <= k0 && ov[k] == p.last() && (p.len() >= 2 ==> k < k0),
    decreases p.len(),
{
    if p.len() > 1 {
        let q = p.drop_last();
        assert forall|i: int| 0 <= i < q.len() - 1 implies #[trigger] walk_step(m, q, i) by {
            assert(walk_step(m, p, i));
        }
        lemma_walk_in_order(m, ov, q, k0);
        let kq = choose|k: int| 0 <= k <= k0 && ov[k] == q.last() && (q.len() >= 2 ==> k < k0);
        assert(walk_step(m, p, p.len() - 2));
        assert(deps_listed_before(m, ov, kq));
        assert(deps_in(m, ov[kq]).contains(p.last()));
        let pre = ov.subrange(0, kq);
        let k = choose|k: int| 0 <= k < pre.len() && pre[k] == p.last();
        assert(ov[k] == p.last());
    } else {
        assert(ov[k0] == p.last());
    }
}

/// In Kahn's order of the tasks that `target` leads to, no task depends on `target`.
proof fn lemma_nothing_depends_on_target(
    m: Map<Seq<char>, Seq<Seq<char>>>,
    target: Seq<char>,
    ov: Seq<Seq<char>>,
    ky: int,
)
    requires
        kahn_order(m, target, ov),
        0 <= ky < ov.len(),
    ensures
        !deps_in(m, ov[ky]).contains(target),
{
    if deps_in(m, ov[ky]).contains(target) {
        assert(deps_listed_before(m, ov, ky));
        let pre = ov.subrange(0, ky);
        let kt = choose|k: int| 0 <= k < pre.len() && pre[k] == target;
        assert(ov[kt] == target);
        assert(leads_to(m, target, ov[ky]));
        let p = choose|p: Seq<Seq<char>>| is_walk(m, p) && p[0] == target && p.last() == ov[ky];
        lemma_walk_in_order(m, ov, p, kt);
        let k = choose|k: int| 0 <= k <= kt && ov[k] == p.last() && (p.len() >= 2 ==> k < kt);
        assert(ov[k] == ov[ky]);
    }
}

// ── Laws ─────────────────────────────────────────────────────────────────────

/// A contiguous piece of a walk is a walk.
proof fn lemma_subwalk(m: Map<Seq<char>, Seq<Seq<char>>>, p: Seq<Seq<char>>, i: int, j: int)
    requires
        is_walk(m, p),
        0 <= i < j <= p.len(),
    ensures
        is_walk(m, p.subrange(i, j)),
{
    let q = p.subrange(i, j);
    assert forall|k: int| 0 <= k < q.len() - 1 implies #[trigger] walk_step(m, q, k) by {
        assert(walk_step(m, p, i + k));
    }
}

/// From a task that `target` leads to and that `order` leaves out, a walk of `k` more
/// steps leads through tasks that `order` leaves out too, all of them keys of `m`.
proof fn lemma_stuck_chain(
    m: Map<Seq<char>, Seq<Seq<char>>>,
    target: Seq<char>,
    order: Seq<Seq<char>>,
    y: Seq<char>,
    k: nat,
) -> (p: Seq<Seq<char>>)
    requires
        acyclic(m),
        is_execution_order(m, target, order),
        leads_to(m, target, y),
        !order.contains(y),
    ensures
        is_walk(m, p),
        p.len() == k + 1,
        p[0] == y,
        forall|i: int| 0 <= i < p.len() ==> m.contains_key(#[trigger] p[i]) && !order.contains(p[i]),
    decreases k,
{
    assert(blocked(m, order.drop_last(), y));
    let d = choose|d: Seq<char>| #[trigger]
        deps_in(m, y).contains(d) && !order.drop_last().contains(d);
    assert(m.contains_key(y));
    assert(order[order.len() - 1] == target);
    lemma_leads_to_step(m, target, y, d);
    if order.contains(d) {
        let i = choose|i: int| 0 <= i < order.len() && order[i] == d;
        if i < order.len() - 1 {
            assert(order.drop_last()[i] == d);
        }
        // `d` is `target`, which then leads back to itself through `y`.
        let w = choose|w: Seq<Seq<char>>| is_walk(m, w) && w[0] == target && w.last() == y;
        lemma_walk_extend(m, w, d);
        assert(w.len() >= 2) by {
            if w.len() == 1 {
                assert(order.contains(y));
            }
        }
        assert(w.push(d)[0] == w.push(d).last());
        assert(false);
    }
    if k == 0 {
        let p = seq![y];
        assert(p[0] == y);
        p
    } else {
        let q = lemma_stuck_chain(m, target, order, d, (k - 1) as nat);
        let p = seq![y] + q;
        assert forall|i: int| 0 <= i < p.len() - 1 implies #[trigger] walk_step(m, p, i) by {
            if i > 0 {
                assert(walk_step(m, q, i - 1));
            }
        }
        assert forall|i: int| 0 <= i < p.len() implies m.contains_key(#[trigger] p[i]) && !order.contains(
            p[i],
        ) by {
            if i > 0 {
                assert(p[i] == q[i - 1]);
            }
        }
        p
    }
}

/// In a graph without cycles, an execution order of `target` lists exactly the tasks
/// that `target` leads to.
pub proof fn law_execution_order_complete(
    m: Map<Seq<char>, Seq<Seq<char>>>,
    target: Seq<char>,
    order: Seq<Seq<char>>,
)
    requires
        m.dom().finite(),
        acyclic(m),
        is_execution_order(m, target, order),
    ensures
        forall|x: Seq<char>| order.contains(x) <==> leads_to(m, target, x),
{
    assert forall|x: Seq<char>| order.contains(x) <==> leads_to(m, target, x) by {
        if order.contains(x) {
            let i = choose|i: int| 0 <= i < order.len() && order[i] == x;
            assert(leads_to(m, target, order[i]));
        }
        if leads_to(m, target, x) && !order.contains(x) {
            let p = lemma_stuck_chain(m, target, order, x, m.dom().len());
            if p.no_duplicates() {
                p.unique_seq_to_set();
                assert(p.to_set().subset_of(m.dom())) by {
                    assert forall|y: Seq<char>| p.to_set().contains(y) implies m.dom().contains(y) by {
                        let i = choose|i: int| 0 <= i < p.len() && p[i] == y;
                        assert(m.contains_key(p[i]));
                    }
                }
                vstd::set_lib::lemma_len_subset(p.to_set(), m.dom());
            } else {
                let (i, j) = choose|i: int, j: int|
                    0 <= i < p.len() && 0 <= j < p.len() && i != j && p[i] == p[j];
                let (a, b) = if i < j {
                    (i, j)
                } else {
                    (j, i)
                };
                lemma_subwalk(m, p, a, b + 1);
                let c = p.subrange(a, b + 1);
                assert(c[0] == c.last());
            }
        }
    }
}

/// The position of a task named `x` among `tasks`.
pub open spec fn index_of_name(tasks: Seq<TaskView>, x: Seq<char>) -> int {
    choose|i: int| 0 <= i < tasks.len() && tasks[i].name == x
}

proof fn lemma_graph_of_key(tasks: Seq<TaskView>, x: Seq<char>)
    requires
        graph_of(tasks).contains_key(x),
    ensures
        0 <= index_of_name(tasks, x) < tasks.len(),
        tasks[index_of_name(tasks, x)].name == x,
{
    let names = tasks.map_values(|t: TaskView| t.name);
    if forall|j: int| 0 <= j < tasks.len() ==> names[j] != x {
        lemma_insert_entries_absent(
            names,
            tasks.map_values(|t: TaskView| t.flags.deps),
            tasks.len() as int,
            x,
        );
    }
    let j = choose|j: int| 0 <= j < tasks.len() && names[j] == x;
    assert(tasks[j].name == x);
}

proof fn lemma_graph_of_entry(tasks: Seq<TaskView>, i: int)
    requires
        crate::validate::names_unique(tasks),
        0 <= i < tasks.len(),
    ensures
        graph_of(tasks).contains_key(tasks[i].name),
        graph_of(tasks)[tasks[i].name] == tasks[i].flags.deps,
{
    let names = tasks.map_values(|t: TaskView| t.name);
    assert forall|j: int| i < j < tasks.len() implies names[j] != names[i] by {
        assert(tasks[j].name != tasks[i].name);
    }
    lemma_insert_entries_last(
        names,
        tasks.map_values(|t: TaskView| t.flags.deps),
        tasks.len() as int,
        i,
    );
}

/// The graph of tasks with distinct names and no dependency cycle (as the parser
/// accepts them) is finite and acyclic.
pub proof fn law_graph_of_valid_tasks(tasks: Seq<TaskView>)
    requires
        crate::validate::names_unique(tasks),
        !crate::validate::has_dependency_cycle(tasks),
    ensures
        graph_of(tasks).dom().finite(),
        acyclic(graph_of(tasks)),
{
    let m = graph_of(tasks);
    lemma_insert_entries_finite(
        tasks.map_values(|t: TaskView| t.name),
        tasks.map_values(|t: TaskView| t.flags.deps),
        tasks.len() as int,
    );
    assert forall|p: Seq<Seq<char>>| is_walk(m, p) && p.len() >= 2 implies p[0] != p.last() by {
        if p[0] == p.last() {
            assert forall|k: int| 0 <= k < p.len() implies m.contains_key(#[trigger] p[k]) by {
                if k < p.len() - 1 {
                    assert(walk_step(m, p, k));
                } else {
                    assert(walk_step(m, p, 0));
                }
            }
            let q = Seq::new(p.len(), |k: int| index_of_name(tasks, p[k]));
            let edge = crate::validate::dep_edge(tasks);
            assert forall|k: int| 0 <= k < q.len() implies 0 <= #[trigger] q[k] < tasks.len() by {
                assert(m.contains_key(p[k]));
                lemma_graph_of_key(tasks, p[k]);
            }
            assert forall|k: int| 0 <= k < q.len() - 1 implies #[trigger] crate::paths::step_ok(
                edge,
                q,
                k,
            ) by {
                assert(walk_step(m, p, k));
                assert(m.contains_key(p[k]));
                assert(m.contains_key(p[k + 1]));
                lemma_graph_of_key(tasks, p[k]);
                lemma_graph_of_key(tasks, p[k + 1]);
                lemma_graph_of_entry(tasks, q[k]);
            }
            assert(crate::paths::is_path(edge, tasks.len() as int, q));
            assert(q[0] == q.last());
        }
    }
}

/// In the graph of tasks whose dependencies all name tasks, whatever a task leads to
/// is a task.
pub proof fn lemma_reached_is_task(tasks: Seq<TaskView>, t: Seq<char>, x: Seq<char>)
    requires
        crate::validate::deps_known(tasks),
        graph_of(tasks).contains_key(t),
        leads_to(graph_of(tasks), t, x),
    ensures
        exists|j: int| 0 <= j < tasks.len() && tasks[j].name == x,
{
    let m = graph_of(tasks);
    let p = choose|p: Seq<Seq<char>>| is_walk(m, p) && p[0] == t && p.last() == x;
    if p.len() == 1 {
        lemma_graph_of_key(tasks, t);
        assert(tasks[index_of_name(tasks, t)].name == x);
    } else {
        let k = p.len() - 2;
        assert(walk_step(m, p, k));
        let a = p[k];
        assert(m.contains_key(a));
        let names = tasks.map_values(|tv: TaskView| tv.name);
        let deps = tasks.map_values(|tv: TaskView| tv.flags.deps);
        lemma_graph_of_key(tasks, a);
        // The entry of `a` is the dependency list of its last declaration.
        let n = tasks.len() as int;
        let last = choose|i: int|
            0 <= i < n && names[i] == a && forall|j: int| i < j < n ==> names[j] != a;
        assert(exists|i: int|
            0 <= i < n && names[i] == a && forall|j: int| i < j < n ==> names[j] != a) by {
            lemma_last_index(names, a, n, index_of_name(tasks, a));
        }
        lemma_insert_entries_last(names, deps, n, last);
        let ds = tasks[last].flags.deps;
        assert(ds.contains(x));
        let c = choose|c: int| 0 <= c < ds.len() && ds[c] == x;
        assert(crate::validate::task_names(tasks).contains(tasks[last].flags.deps[c]));
        let j = choose|j: int| 0 <= j < n && crate::validate::task_names(tasks)[j] == x;
        assert(tasks[j].name == x);
    }
}

/// Some position of `names[0..n]` holds `a` and no later one does.
proof fn lemma_last_index(names: Seq<Seq<char>>, a: Seq<char>, n: int, i: int)
    requires
        0 <= i < n <= names.len(),
        names[i] == a,
    ensures
        exists|k: int| 0 <= k < n && names[k] == a && forall|j: int| k < j < n ==> names[j] != a,
    decreases n - i,
{
    if exists|j: int| i < j < n && names[j] == a {
        let j = choose|j: int| i < j < n && names[j] == a;
        lemma_last_index(names, a, n, j);
    } else {
        assert(forall|j: int| i < j < n ==> names[j] != a);
    }
}

// ── Small executable helpers ─────────────────────────────────────────────────

pub open spec fn str_views(v: Seq<&str>) -> Seq<Seq<char>> {
    v.map_values(|s: &str| s@)
}

/// Whether `s` is one of `v`.
fn contains_str(v: &Vec<&str>, s: &str) -> (r: bool)
    ensures
        r == str_views(v@).contains(s@),
{
    let mut j: usize = 0;
    while j < v.len()
        invariant
            j <= v.len(),
            forall|k: int| 0 <= k < j ==> str_views(v@)[k] != s@,
        decreases v.len() - j,
    {
        if str_eq(v[j], s) {
            assert(str_views(v@)[j as int] == s@);
            return true;
        }
        j += 1;
    }
    false
}

// ── The graph ────────────────────────────────────────────────────────────────

/// Adjacency lists of the task dependency graph: the name of each task declaration, in
/// order, beside the names of its dependencies.
pub struct DependencyGraph<'mf> {
    names: Vec<&'mf str>,
    deps: Vec<Vec<&'mf str>>,
}

impl<'mf> DependencyGraph<'mf> {
    #[verifier::type_invariant]
    spec fn well_formed(self) -> bool {
        self.names.len() == self.deps.len()
    }

    spec fn entry_names(self) -> Seq<Seq<char>> {
        str_views(self.names@)
    }

    spec fn entry_deps(self) -> Seq<Seq<Seq<char>>> {
        self.deps@.map_values(|v: Vec<&str>| str_views(v@))
    }

    /// Build the graph of all tasks declared in `mossfile`.
    pub fn build(mossfile: &'mf Mossfile) -> (g: Self)
        ensures
            g@ == graph_of(mossfile@.tasks),
    {
        let tasks = &mossfile.tasks;
        let ghost tv = mossfile@.tasks;
        let mut names: Vec<&'mf str> = Vec::new();
        let mut deps: Vec<Vec<&'mf str>> = Vec::new();
        let mut i: usize = 0;
        while i < tasks.len()
            invariant
                i <= tasks.len(),
                tv == tasks@.map_values(|t: crate::ast::Task| t@),
                names.len() == i,
                deps.len() == i,
                forall|k: int| 0 <= k < i ==> #[trigger] names@[k]@ == tv[k].name,
                forall|k: int| 0 <= k < i ==> str_views(#[trigger] deps@[k]@) == tv[k].flags.deps,
            decreases tasks.len() - i,
        {
            let task = &tasks[i];
            let mut ds: Vec<&'mf str> = Vec::new();
            let mut j: usize = 0;
            while j < task.flags.deps.len()
                invariant
                    j <= task.flags.deps.len(),
                    ds.len() == j,
                    forall|k: int| 0 <= k < j ==> #[trigger] ds@[k]@ == task.flags.deps@[k]@,
                decreases task.flags.deps.len() - j,
            {
                ds.push(task.flags.deps[j].as_str());
                j += 1;
            }
            assert(str_views(ds@) =~= tv[i as int].flags.deps);
            names.push(task.name.as_str());
            deps.push(ds);
            i += 1;
        }
        let g = DependencyGraph { names, deps };
        assert(g.entry_names() =~= tv.map_values(|t: TaskView| t.name));
        assert(g.entry_deps() =~= tv.map_values(|t: TaskView| t.flags.deps));
        g
    }

    /// The dependencies recorded for `name`, if it names a task.
    fn deps_of(&self, name: &str) -> (r: Option<&Vec<&'mf str>>)
        ensures
            r is Some == self@.contains_key(name@),
            r matches Some(v) ==> str_views(v@) == self@[name@],
            str_views(match r { Some(v) => v@, None => Seq::empty() }) == deps_in(self@, name@),
    {
        proof {
            use_type_invariant(self);
        }
        let mut i: usize = self.names.len();
        while i > 0
            invariant
                i <= self.names.len(),
                self.names.len() == self.deps.len(),
                forall|j: int| i <= j < self.names.len() ==> self.entry_names()[j] != name@,
            decreases i,
        {
            if str_eq(self.names[i - 1], name) {
                proof {
                    lemma_insert_entries_last(
                        self.entry_names(),
                        self.entry_deps(),
                        self.names.len() as int,
                        i - 1,
                    );
                }
                return Some(&self.deps[i - 1]);
            }
            i -= 1;
        }
        proof {
            lemma_insert_entries_absent(
                self.entry_names(),
                self.entry_deps(),
                self.names.len() as int,
                name@,
            );
            assert(str_views(Seq::<&str>::empty()) =~= Seq::<Seq<char>>::empty());
        }
        None
    }

    /// Every name that a walk from `start` can meet: `start` and all recorded
    /// dependencies.
    spec fn universe(self, start: Seq<char>) -> Seq<Seq<char>> {
        all_deps(self.entry_deps(), self.names.len() as int).push(start)
    }

    /// All task names reachable from `start` through dependencies, `start` included.
    fn reachable_from(&self, start: &'mf str) -> (r: Vec<&'mf str>)
        ensures
            str_views(r@).no_duplicates(),
            forall|x: Seq<char>| str_views(r@).contains(x) <==> leads_to(self@, start@, x),
    {
        proof {
            use_type_invariant(self);
        }
        let ghost m = self@;
        let ghost u = self.universe(start@);
        let mut visited: Vec<&'mf str> = Vec::new();
        let mut stack: Vec<&'mf str> = Vec::new();
        stack.push(start);
        proof {
            let p = seq![start@];
            assert(is_walk(m, p) && p[0] == start@ && p.last() == start@);
            assert(u[u.len() - 1] == start@);
            assert(str_views(stack@)[0] == start@);
        }
        while stack.len() > 0
            invariant
                m == self@,
                u == self.universe(start@),
                str_views(visited@).no_duplicates(),
                forall|x: Seq<char>|
                    #[trigger] str_views(visited@).contains(x) ==> leads_to(m, start@, x)
                        && u.contains(x),
                forall|x: Seq<char>|
                    #[trigger] str_views(stack@).contains(x) ==> leads_to(m, start@, x)
                        && u.contains(x),
                str_views(visited@).contains(start@) || str_views(stack@).contains(start@),
                self.names.len() == self.deps.len(),
                forall|v: Seq<char>, d: Seq<char>|
                    str_views(visited@).contains(v) && #[trigger] deps_in(m, v).contains(d)
                        ==> str_views(visited@).contains(d) || str_views(stack@).contains(d),
            decreases count_unvisited(u, str_views(visited@)), stack.len(),
        {
            let ghost v0 = str_views(visited@);
            let ghost s0 = str_views(stack@);
            let name = stack.pop().unwrap();
            proof {
                assert(str_views(stack@) =~= s0.drop_last());
                assert(s0[s0.len() - 1] == name@);
                assert forall|x: Seq<char>| s0.contains(x) implies x == name@ || str_views(
                    stack@,
                ).contains(x) by {
                    let j = choose|j: int| 0 <= j < s0.len() && s0[j] == x;
                    if j < s0.len() - 1 {
                        assert(str_views(stack@)[j] == x);
                    }
                }
                assert forall|x: Seq<char>| #[trigger] str_views(stack@).contains(x) implies s0.contains(
                    x,
                ) && leads_to(m, start@, x) && u.contains(x) by {
                    let j = choose|j: int| 0 <= j < str_views(stack@).len() && str_views(stack@)[j]
                        == x;
                    assert(s0[j] == x);
                }
                assert(s0.contains(name@));
            }
            if !contains_str(&visited, name) {
                visited.push(name);
                let ghost v1 = str_views(visited@);
                proof {
                    assert(v1 =~= v0.push(name@));
                    assert(v1[v0.len() as int] == name@);
                    assert forall|x: Seq<char>| v0.contains(x) implies v1.contains(x) by {
                        let j = choose|j: int| 0 <= j < v0.len() && v0[j] == x;
                        assert(v1[j] == x);
                    }
                    assert forall|x: Seq<char>| v1.contains(x) implies v0.contains(x) || x
                        == name@ by {
                        let j = choose|j: int| 0 <= j < v1.len() && v1[j] == x;
                        if j < v0.len() {
                            assert(v0[j] == x);
                        }
                    }
                    lemma_count_unvisited_push(u, v0, name@);
                    assert(u.contains(name@));
                }
                match self.deps_of(name) {
                    Some(ds) => {
                        let ghost dv = str_views(ds@);
                        let mut k: usize = 0;
                        while k < ds.len()
                            invariant
                                m == self@,
                                u == self.universe(start@),
                                dv == str_views(ds@),
                                dv == deps_in(m, name@),
                                v1 == str_views(visited@),
                                k <= ds.len(),
                                forall|x: Seq<char>|
                                    #[trigger] str_views(stack@).contains(x) ==> leads_to(
                                        m,
                                        start@,
                                        x,
                                    ) && u.contains(x),
                                forall|x: Seq<char>|
                                    s0.contains(x) ==> x == name@ || str_views(stack@).contains(x),
                                forall|j: int|
                                    0 <= j < k ==> v1.contains(#[trigger] dv[j]) || str_views(
                                        stack@,
                                    ).contains(dv[j]),
                                leads_to(m, start@, name@),
                                self.names.len() == self.deps.len(),
                            decreases ds.len() - k,
                        {
                            let dep = ds[k];
                            let ghost s1 = str_views(stack@);
                            if !contains_str(&visited, dep) {
                                stack.push(dep);
                                proof {
                                    assert(str_views(stack@) =~= s1.push(dep@));
                                    assert(str_views(stack@)[s1.len() as int] == dep@);
                                    assert forall|x: Seq<char>| s1.contains(x) implies str_views(
                                        stack@,
                                    ).contains(x) by {
                                        let j = choose|j: int| 0 <= j < s1.len() && s1[j] == x;
                                        assert(str_views(stack@)[j] == x);
                                    }
                                    assert(dv[k as int] == dep@);
                                    assert(dv.contains(dep@));
                                    lemma_leads_to_step(m, start@, name@, dep@);
                                    lemma_deps_in_all_deps(
                                        self.entry_names(),
                                        self.entry_deps(),
                                        self.names.len() as int,
                                        name@,
                                        dep@,
                                    );
                                    assert(u.contains(dep@)) by {
                                        let a = all_deps(
                                            self.entry_deps(),
                                            self.names.len() as int,
                                        );
                                        let j = choose|j: int| 0 <= j < a.len() && a[j] == dep@;
                                        assert(u[j] == dep@);
                                    }
                                    assert forall|x: Seq<char>| #[trigger] str_views(
                                        stack@,
                                    ).contains(x) implies leads_to(m, start@, x) && u.contains(
                                        x,
                                    ) by {
                                        let j = choose|j: int|
                                            0 <= j < str_views(stack@).len() && str_views(
                                                stack@,
                                            )[j] == x;
                                        if j < s1.len() {
                                            assert(s1[j] == x);
                                            assert(s1.contains(x));
                                        } else {
                                            assert(x == dep@);
                                        }
                                    }
                                }
                            }
                            k += 1;
                        }
                        proof {
                            assert forall|d: Seq<char>| #[trigger]
                                deps_in(m, name@).contains(d) implies v1.contains(d) || str_views(
                                stack@,
                            ).contains(d) by {
                                let j = choose|j: int| 0 <= j < dv.len() && dv[j] == d;
                            }
                        }
                    },
                    None => {},
                }
            }
        }
        proof {
            let vs = str_views(visited@);
            assert(str_views(stack@).len() == 0);
            assert forall|x: Seq<char>| leads_to(self@, start@, x) implies vs.contains(x) by {
                let p = choose|p: Seq<Seq<char>>| is_walk(m, p) && p[0] == start@ && p.last() == x;
                lemma_closed_holds_reachable(m, vs, p);
            }
        }
        visited
    }

    /// Whether the task `task` lists `dep` among its dependencies.
    fn depends_on(&self, task: &str, dep: &str) -> (r: bool)
        ensures
            r == deps_in(self@, task@).contains(dep@),
    {
        match self.deps_of(task) {
            Some(ds) => contains_str(ds, dep),
            None => false,
        }
    }

    /// The number of distinct tasks among `reachable` that task `i` depends on: all of
    /// its dependencies when they are all reachable.
    fn distinct_dep_count(&self, reachable: &Vec<&'mf str>, i: usize) -> (r: usize)
        requires
            i < reachable.len(),
            str_views(reachable@).no_duplicates(),
            forall|d: Seq<char>|
                deps_in(self@, str_views(reachable@)[i as int]).contains(d) ==> str_views(
                    reachable@,
                ).contains(d),
        ensures
            r == deps_in(self@, str_views(reachable@)[i as int]).to_set().len(),
    {
        let ghost rv = str_views(reachable@);
        let ghost di = deps_in(self@, rv[i as int]);
        let mut count: usize = 0;
        let mut j: usize = 0;
        proof {
            assert(rv.subrange(0, 0).to_set() =~= Set::empty());
            assert(hits(rv.subrange(0, 0), di) =~= Set::empty());
        }
        while j < reachable.len()
            invariant
                i < reachable.len(),
                rv == str_views(reachable@),
                rv.no_duplicates(),
                di == deps_in(self@, rv[i as int]),
                j <= reachable.len(),
                count <= j,
                count == hits(rv.subrange(0, j as int), di).len(),
            decreases reachable.len() - j,
        {
            proof {
                assert(rv[i as int] == reachable@[i as int]@);
                assert(rv[j as int] == reachable@[j as int]@);
                let pre = rv.subrange(0, j as int);
                assert(rv.subrange(0, j + 1) =~= pre.push(rv[j as int]));
                if pre.contains(rv[j as int]) {
                    let k = choose|k: int| 0 <= k < pre.len() && pre[k] == rv[j as int];
                    assert(rv[k] == rv[j as int]);
                }
                lemma_hits_push(pre, di, rv[j as int]);
            }
            if self.depends_on(reachable[i], reachable[j]) {
                count += 1;
            }
            j += 1;
        }
        proof {
            assert(rv.subrange(0, rv.len() as int) =~= rv);
            lemma_hits_bound(rv, di);
        }
        count
    }

    /// Kahn's algorithm over the tasks `reachable` from `target`: emit a task once all
    /// of its dependencies have been emitted.
    fn kahn(&self, reachable: &Vec<&'mf str>, target: &'mf str) -> (order: Vec<&'mf str>)
        requires
            str_views(reachable@).no_duplicates(),
            forall|x: Seq<char>|
                str_views(reachable@).contains(x) <==> leads_to(self@, target@, x),
        ensures
            kahn_order(self@, target@, str_views(order@)),
    {
        let ghost m = self@;
        let ghost rv = str_views(reachable@);
        let n = reachable.len();
        // In-degrees: the number of distinct tasks that each task depends on.
        let mut in_degree: Vec<usize> = Vec::new();
        let mut i: usize = 0;
        while i < n
            invariant
                m == self@,
                rv == str_views(reachable@),
                rv.no_duplicates(),
                forall|x: Seq<char>| rv.contains(x) <==> leads_to(m, target@, x),
                n == reachable.len(),
                i <= n,
                in_degree.len() == i,
                forall|j: int|
                    0 <= j < i ==> #[trigger] in_degree@[j] == deps_in(m, rv[j]).to_set().len(),
            decreases n - i,
        {
            proof {
                assert(rv[i as int] == reachable@[i as int]@);
                assert(rv.contains(rv[i as int]));
                assert forall|d: Seq<char>| deps_in(m, rv[i as int]).contains(d) implies rv.contains(
                    d,
                ) by {
                    lemma_leads_to_step(m, target@, rv[i as int], d);
                }
            }
            let d = self.distinct_dep_count(reachable, i);
            in_degree.push(d);
            i += 1;
        }
        // Seed the queue with the tasks that have no dependencies.
        let mut queue: Vec<usize> = Vec::new();
        i = 0;
        while i < n
            invariant
                m == self@,
                rv == str_views(reachable@),
                n == reachable.len(),
                i <= n,
                in_degree.len() == n,
                forall|j: int|
                    0 <= j < n ==> #[trigger] in_degree@[j] == deps_in(m, rv[j]).to_set().len(),
                queue@.no_duplicates(),
                forall|k: int| 0 <= k < queue.len() ==> #[trigger] queue@[k] < i,
                forall|j: int|
                    0 <= j < n ==> (queue@.contains(j as usize) <==> j < i && #[trigger] in_degree@[j]
                        == 0),
            decreases n - i,
        {
            if in_degree[i] == 0 {
                let ghost q0 = queue@;
                queue.push(i);
                proof {
                    assert(queue@ == q0.push(i));
                    assert(queue@[q0.len() as int] == i);
                    assert forall|j: int| 0 <= j < n implies (queue@.contains(j as usize) <==> j
                        <= i && #[trigger] in_degree@[j] == 0) by {
                        if queue@.contains(j as usize) {
                            let k = choose|k: int| 0 <= k < queue.len() && queue@[k] == j as usize;
                            if k < q0.len() {
                                assert(q0[k] == j as usize);
                                assert(q0.contains(j as usize));
                            }
                        }
                        if j < i && in_degree@[j] == 0 {
                            assert(q0.contains(j as usize));
                            let k = choose|k: int| 0 <= k < q0.len() && q0[k] == j as usize;
                            assert(queue@[k] == j as usize);
                        }
                    }
                }
            }
            i += 1;
        }
        proof {
            lemma_distinct_below(queue@, n as int);
            assert forall|j: int| 0 <= j < n implies #[trigger] in_degree@[j] + hits(
                names_at(rv, queue@.subrange(0, 0)),
                deps_in(m, rv[j]),
            ).len() == deps_in(m, rv[j]).to_set().len() by {
                assert(names_at(rv, queue@.subrange(0, 0)).to_set() =~= Set::empty());
                assert(hits(names_at(rv, queue@.subrange(0, 0)), deps_in(m, rv[j])) =~= Set::empty());
            }
            assert forall|k: int| 0 <= k < queue.len() implies #[trigger] ready_at(m, rv, queue@, k) by {
                let j = queue@[k] as int;
                assert(queue@.contains(j as usize));
                assert(in_degree@[j] == 0);
                lemma_hits_bound(names_at(rv, queue@.subrange(0, k)), deps_in(m, rv[j]));
            }
        }
        let mut head: usize = 0;
        while head < queue.len()
            invariant
                m == self@,
                rv == str_views(reachable@),
                rv.no_duplicates(),
                n == reachable.len(),
                in_degree.len() == n,
                head <= queue.len() <= n,
                queue@.no_duplicates(),
                forall|k: int| 0 <= k < queue.len() ==> #[trigger] queue@[k] < n,
                forall|j: int|
                    0 <= j < n ==> #[trigger] in_degree@[j] + hits(
                        names_at(rv, queue@.subrange(0, head as int)),
                        deps_in(m, rv[j]),
                    ).len() == deps_in(m, rv[j]).to_set().len(),
                forall|j: int|
                    0 <= j < n ==> (queue@.contains(j as usize) <==> #[trigger] in_degree@[j] == 0),
                forall|k: int| 0 <= k < queue.len() ==> #[trigger] ready_at(m, rv, queue@, k),
            decreases n - head,
        {
            let x = queue[head];
            let ghost p0 = names_at(rv, queue@.subrange(0, head as int));
            head += 1;
            let ghost qh = queue@.subrange(0, head as int);
            let ghost p1 = names_at(rv, qh);
            let name = reachable[x];
            proof {
                assert(p1 =~= p0.push(rv[x as int]));
                assert(name@ == rv[x as int]);
                if p0.contains(rv[x as int]) {
                    let k = choose|k: int| 0 <= k < p0.len() && p0[k] == rv[x as int];
                    assert(rv[queue@[k] as int] == rv[x as int]);
                    assert(queue@[k] == x);
                    assert(queue@[head - 1] == x);
                }
            }
            let mut j: usize = 0;
            while j < n
                invariant
                    m == self@,
                    rv == str_views(reachable@),
                    rv.no_duplicates(),
                    n == reachable.len(),
                    in_degree.len() == n,
                    1 <= head <= queue.len() <= n,
                    j <= n,
                    qh == queue@.subrange(0, head as int),
                    p1 == names_at(rv, qh),
                    p1 == p0.push(rv[x as int]),
                    !p0.contains(rv[x as int]),
                    name@ == rv[x as int],
                    queue@.no_duplicates(),
                    forall|k: int| 0 <= k < queue.len() ==> #[trigger] queue@[k] < n,
                    forall|j2: int|
                        0 <= j2 < j ==> #[trigger] in_degree@[j2] + hits(p1, deps_in(m, rv[j2])).len()
                            == deps_in(m, rv[j2]).to_set().len(),
                    forall|j2: int|
                        j <= j2 < n ==> #[trigger] in_degree@[j2] + hits(p0, deps_in(m, rv[j2])).len()
                            == deps_in(m, rv[j2]).to_set().len(),
                    forall|j2: int|
                        0 <= j2 < n ==> (queue@.contains(j2 as usize) <==> #[trigger] in_degree@[j2]
                            == 0),
                    forall|k: int| 0 <= k < queue.len() ==> #[trigger] ready_at(m, rv, queue@, k),
                decreases n - j,
            {
                let depends = self.depends_on(reachable[j], name);
                let ghost dj = deps_in(m, rv[j as int]);
                proof {
                    assert(rv[j as int] == reachable@[j as int]@);
                    lemma_hits_push(p0, dj, rv[x as int]);
                    lemma_hits_bound(p1, dj);
                }
                if depends {
                    let d = in_degree[j];
                    let nd = if d > 0 {
                        d - 1
                    } else {
                        0
                    };
                    in_degree.set(j, nd);
                    if nd == 0 {
                        let ghost q0 = queue@;
                        proof {
                            assert(!q0.contains(j));
                        }
                        queue.push(j);
                        proof {
                            assert(queue@ == q0.push(j));
                            assert(queue@[q0.len() as int] == j);
                            assert(queue@.no_duplicates());
                            lemma_distinct_below(queue@, n as int);
                            assert(queue@.subrange(0, head as int) =~= qh);
                            assert forall|j2: int| 0 <= j2 < n implies (queue@.contains(j2 as usize)
                                <==> #[trigger] in_degree@[j2] == 0) by {
                                if queue@.contains(j2 as usize) {
                                    let k = choose|k: int|
                                        0 <= k < queue.len() && queue@[k] == j2 as usize;
                                    if k < q0.len() {
                                        assert(q0[k] == j2 as usize);
                                        assert(q0.contains(j2 as usize));
                                    }
                                }
                                if in_degree@[j2] == 0 && j2 != j {
                                    assert(q0.contains(j2 as usize));
                                    let k = choose|k: int| 0 <= k < q0.len() && q0[k] == j2 as usize;
                                    assert(queue@[k] == j2 as usize);
                                }
                            }
                            assert forall|k: int| 0 <= k < queue.len() implies #[trigger] ready_at(
                                m,
                                rv,
                                queue@,
                                k,
                            ) by {
                                if k < q0.len() {
                                    assert(ready_at(m, rv, q0, k));
                                    assert(queue@.subrange(0, k) =~= q0.subrange(0, k));
                                } else {
                                    assert forall|d: Seq<char>| #[trigger]
                                        deps_in(m, rv[queue@[k] as int]).contains(d) implies names_at(
                                        rv,
                                        queue@.subrange(0, k),
                                    ).contains(d) by {
                                        lemma_names_at_prefix(rv, queue@, head as int, k, d);
                                    }
                                }
                            }
                        }
                    }
                }
                j += 1;
            }
        }
        // Collect the emitted names, in order.
        let mut order: Vec<&'mf str> = Vec::new();
        let mut k: usize = 0;
        while k < queue.len()
            invariant
                rv == str_views(reachable@),
                n == reachable.len(),
                k <= queue.len(),
                forall|k2: int| 0 <= k2 < queue.len() ==> #[trigger] queue@[k2] < n,
                str_views(order@) == names_at(rv, queue@.subrange(0, k as int)),
            decreases queue.len() - k,
        {
            let ghost o0 = str_views(order@);
            order.push(reachable[queue[k]]);
            proof {
                assert(str_views(order@) =~= o0.push(rv[queue@[k as int] as int]));
            }
            k += 1;
            assert(str_views(order@) =~= names_at(rv, queue@.subrange(0, k as int)));
        }
        proof {
            let ov = str_views(order@);
            assert(queue@.subrange(0, queue.len() as int) =~= queue@);
            assert(ov == names_at(rv, queue@));
            assert(names_at(rv, queue@.subrange(0, head as int)) == ov);
            assert forall|a: int, b: int| 0 <= a < ov.len() && 0 <= b < ov.len() && a != b implies ov[a]
                != ov[b] by {
                assert(queue@[a] != queue@[b]);
            }
            assert forall|k2: int| 0 <= k2 < ov.len() implies leads_to(m, target@, #[trigger] ov[k2]) by {
                assert(rv[queue@[k2] as int] == ov[k2]);
                assert(rv.contains(ov[k2]));
            }
            assert forall|k2: int| 0 <= k2 < ov.len() implies #[trigger] deps_listed_before(m, ov, k2) by {
                assert(ready_at(m, rv, queue@, k2));
                assert(names_at(rv, queue@.subrange(0, k2)) =~= ov.subrange(0, k2));
            }
            assert forall|x: Seq<char>| leads_to(m, target@, x) && !ov.contains(x) implies #[trigger] blocked(
                m,
                ov,
                x,
            ) by {
                assert(rv.contains(x));
                let j = choose|j: int| 0 <= j < rv.len() && rv[j] == x;
                if queue@.contains(j as usize) {
                    let k2 = choose|k2: int| 0 <= k2 < queue.len() && queue@[k2] == j as usize;
                    assert(ov[k2] == x);
                }
                assert(in_degree@[j] != 0);
                lemma_hits_bound(ov, deps_in(m, rv[j]));
            }
        }
        order
    }

    /// `order` with `target` moved to the end, unless it is already last.
    fn place_target_last(&self, order: Vec<&'mf str>, target: &'mf str) -> (r: Vec<&'mf str>)
        requires
            kahn_order(self@, target@, str_views(order@)),
        ensures
            is_execution_order(self@, target@, str_views(r@)),
    {
        let ghost m = self@;
        let ghost ov = str_views(order@);
        let ghost t = target@;
        let n = order.len();
        proof {
            let p = seq![t];
            assert(is_walk(m, p) && p[0] == t && p.last() == t);
        }
        if n > 0 && str_eq(order[n - 1], target) {
            proof {
                assert forall|x: Seq<char>| #[trigger] blocked(m, ov, x) implies blocked(
                    m,
                    ov.drop_last(),
                    x,
                ) by {
                    let d = choose|d: Seq<char>| #[trigger]
                        deps_in(m, x).contains(d) && !ov.contains(d);
                    if ov.drop_last().contains(d) {
                        let dl = ov.drop_last();
                        let i = choose|i: int| 0 <= i < dl.len() && dl[i] == d;
                        assert(ov[i] == d);
                    }
                }
                assert forall|x: Seq<char>| leads_to(m, t, x) && !ov.contains(x) implies #[trigger] blocked(
                    m,
                    ov.drop_last(),
                    x,
                ) by {
                    assert(blocked(m, ov, x));
                }
                assert forall|i: int| 0 <= i < ov.len() - 1 implies #[trigger] deps_listed_before(m, ov, i) by {
                    assert(deps_listed_before(m, ov, i));
                }
            }
            return order;
        }
        let mut moved: Vec<&'mf str> = Vec::new();
        let mut k: usize = 0;
        while k < n
            invariant
                m == self@,
                ov == str_views(order@),
                t == target@,
                kahn_order(m, t, ov),
                n == order.len(),
                k <= n,
                str_views(moved@).no_duplicates(),
                forall|i: int|
                    0 <= i < moved.len() ==> #[trigger] deps_listed_before(m, str_views(moved@), i),
                forall|x: Seq<char>|
                    str_views(moved@).contains(x) <==> ov.subrange(0, k as int).contains(x) && x != t,
            decreases n - k,
        {
            let ghost mv = str_views(moved@);
            if !str_eq(order[k], target) {
                moved.push(order[k]);
                proof {
                    let sk = ov.subrange(0, k as int);
                    let sk1 = ov.subrange(0, k + 1);
                    let e = ov[k as int];
                    let mv2 = str_views(moved@);
                    assert(mv2 =~= mv.push(e));
                    assert(mv2[mv.len() as int] == e);
                    assert(!mv.contains(e)) by {
                        if mv.contains(e) {
                            assert(sk.contains(e));
                            let i = choose|i: int| 0 <= i < k && sk[i] == e;
                            assert(ov[i] == e);
                        }
                    }
                    assert forall|i: int| 0 <= i < moved.len() implies #[trigger] deps_listed_before(
                        m,
                        mv2,
                        i,
                    ) by {
                        if i < mv.len() {
                            assert(deps_listed_before(m, mv, i));
                            assert(mv2.subrange(0, i) =~= mv.subrange(0, i));
                        } else {
                            assert(mv2.subrange(0, i) =~= mv);
                            assert(deps_listed_before(m, ov, k as int));
                            lemma_nothing_depends_on_target(m, t, ov, k as int);
                            assert forall|d: Seq<char>| #[trigger]
                                deps_in(m, mv2[i]).contains(d) implies mv2.subrange(0, i).contains(d) by {
                                assert(sk.contains(d));
                                assert(d != t);
                            }
                        }
                    }
                    assert forall|x: Seq<char>| mv2.contains(x) <==> sk1.contains(x)
                        && x != t by {
                        if mv2.contains(x) {
                            let i = choose|i: int| 0 <= i < mv2.len() && mv2[i] == x;
                            if i < mv.len() {
                                assert(mv[i] == x);
                                assert(mv.contains(x));
                                assert(sk.contains(x));
                                let i2 = choose|i2: int|
                                    0 <= i2 < k && sk[i2] == x;
                                assert(sk1[i2] == x);
                            } else {
                                assert(sk1[k as int] == x);
                            }
                        }
                        if sk1.contains(x) && x != t {
                            let i = choose|i: int| 0 <= i < k + 1 && sk1[i] == x;
                            if i < k {
                                assert(sk[i] == x);
                                assert(mv.contains(x));
                                let i2 = choose|i2: int| 0 <= i2 < mv.len() && mv[i2] == x;
                                assert(mv2[i2] == x);
                            }
                        }
                    }
                }
            } else {
                proof {
                    let sk = ov.subrange(0, k as int);
                    let sk1 = ov.subrange(0, k + 1);
                    assert forall|x: Seq<char>| mv.contains(x) <==> sk1.contains(x)
                        && x != t by {
                        if mv.contains(x) {
                            let i2 = choose|i2: int| 0 <= i2 < k && sk[i2] == x;
                            assert(sk1[i2] == x);
                        }
                        if sk1.contains(x) && x != t {
                            let i = choose|i: int| 0 <= i < k + 1 && sk1[i] == x;
                            assert(i < k);
                            assert(sk[i] == x);
                        }
                    }
                }
            }
            k += 1;
        }
        let ghost mv = str_views(moved@);
        moved.push(target);
        proof {
            let o = str_views(moved@);
            assert(o =~= mv.push(t));
            assert(o.drop_last() =~= mv);
            assert(ov.subrange(0, n as int) =~= ov);
            assert(o[mv.len() as int] == t);
            assert forall|i: int| 0 <= i < o.len() implies leads_to(m, t, #[trigger] o[i]) by {
                if i < mv.len() {
                    assert(mv[i] == o[i]);
                    assert(mv.contains(o[i]));
                    let j = choose|j: int| 0 <= j < ov.len() && ov[j] == o[i];
                    assert(leads_to(m, t, ov[j]));
                }
            }
            assert forall|i: int| 0 <= i < o.len() - 1 implies #[trigger] deps_listed_before(m, o, i) by {
                assert(deps_listed_before(m, mv, i));
                assert(o.subrange(0, i) =~= mv.subrange(0, i));
            }
            assert forall|x: Seq<char>| leads_to(m, t, x) && !o.contains(x) implies #[trigger] blocked(
                m,
                o.drop_last(),
                x,
            ) by {
                if ov.contains(x) {
                    assert(x != t) by {
                        assert(o[mv.len() as int] == t);
                    }
                    assert(mv.contains(x));
                    let i = choose|i: int| 0 <= i < mv.len() && mv[i] == x;
                    assert(o[i] == x);
                }
                assert(blocked(m, ov, x));
                let d = choose|d: Seq<char>| #[trigger]
                    deps_in(m, x).contains(d) && !ov.contains(d);
                if mv.contains(d) {
                    let i = choose|i: int| 0 <= i < ov.len() && ov[i] == d;
                }
            }
            assert forall|a: int, b: int| 0 <= a < o.len() && 0 <= b < o.len() && a != b implies o[a]
                != o[b] by {
                if a < mv.len() && b < mv.len() {
                    assert(mv[a] != mv[b]);
                } else if a < mv.len() {
                    assert(mv.contains(o[a]));
                } else if b < mv.len() {
                    assert(mv.contains(o[b]));
                }
            }
        }
        moved
    }

    /// The names of all tasks that must run before `target`, in execution order
    /// (dependencies first), ending with `target` itself.
    ///
    /// Returns [`RunError::TaskNotFound`] if no task is named `target`.
    pub fn execution_order(&self, target: &'mf str) -> (r: Result<Vec<&'mf str>, RunError>)
        ensures
            r is Ok <==> self@.contains_key(target@),
            r matches Ok(order) ==> is_execution_order(self@, target@, str_views(order@)),
            r matches Err(e) ==> (e matches RunError::TaskNotFound(name) && name@ == target@),
    {
        if self.deps_of(target).is_none() {
            return Err(RunError::TaskNotFound(target.to_owned()));
        }
        let reachable = self.reachable_from(target);
        let order = self.kahn(&reachable, target);
        Ok(self.place_target_last(order, target))
    }
}

impl<'mf> View for DependencyGraph<'mf> {
    type V = Map<Seq<char>, Seq<Seq<char>>>;

    closed spec fn view(&self) -> Map<Seq<char>, Seq<Seq<char>>> {
        insert_entries(self.entry_names(), self.entry_deps(), self.names.len() as int)
    }
}

} // verus!
