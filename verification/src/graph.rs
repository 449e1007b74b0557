//! Directed graphs over dense node indices: reachability, transitive closure,
//! and stable topological sorting.
//!
//! A graph is an edge list `Vec<(usize, usize)>` over nodes `0..n`. Reachability
//! is defined by non-empty paths, so `reaches(e, i, i)` states that `i` lies on
//! a cycle.

use vstd::prelude::*;
use vstd::seq_lib::*;
use vstd::set_lib::*;

verus! {

/// A non-empty walk along edges: every consecutive pair is an edge.
pub open spec fn is_path(edges: Seq<(usize, usize)>, p: Seq<usize>) -> bool {
    &&& p.len() >= 2
    &&& forall|k: int| 0 <= k < p.len() - 1 ==> edges.contains(((#[trigger] p[k]), p[k + 1]))
}

/// `b` can be reached from `a` along at least one edge.
pub open spec fn reaches(edges: Seq<(usize, usize)>, a: usize, b: usize) -> bool {
    exists|p: Seq<usize>| #[trigger] is_path(edges, p) && p.first() == a && p.last() == b
}

/// All edge endpoints lie below `n`.
pub open spec fn edges_below(edges: Seq<(usize, usize)>, n: nat) -> bool {
    forall|k: int| 0 <= k < edges.len() ==> (#[trigger] edges[k]).0 < n && edges[k].1 < n
}

pub proof fn lemma_edge_reaches(edges: Seq<(usize, usize)>, a: usize, b: usize)
    requires
        edges.contains((a, b)),
    ensures
        reaches(edges, a, b),
{
    let p = seq![a, b];
    assert(p[0] == a && p[1] == b);
    assert(is_path(edges, p));
}

pub proof fn lemma_reaches_trans(edges: Seq<(usize, usize)>, a: usize, b: usize, c: usize)
    requires
        reaches(edges, a, b),
        reaches(edges, b, c),
    ensures
        reaches(edges, a, c),
{
    let p1 = choose|p: Seq<usize>| #[trigger] is_path(edges, p) && p.first() == a && p.last() == b;
    let p2 = choose|p: Seq<usize>| #[trigger] is_path(edges, p) && p.first() == b && p.last() == c;
    let q = p1 + p2.subrange(1, p2.len() as int);
    assert(q.len() == p1.len() + p2.len() - 1);
    assert forall|k: int| 0 <= k < q.len() - 1 implies edges.contains(
        ((#[trigger] q[k]), q[k + 1]),
    ) by {
        if k < p1.len() - 1 {
            assert(q[k] == p1[k] && q[k + 1] == p1[k + 1]);
        } else if k == p1.len() - 1 {
            assert(q[k] == p1[p1.len() - 1] && q[k + 1] == p2[1]);
            assert(p1.last() == b && p2.first() == b);
            assert(edges.contains((p2[0], p2[1])));
        } else {
            let k2 = k - p1.len() + 1;
            assert(q[k] == p2[k2] && q[k + 1] == p2[k2 + 1]);
            assert(edges.contains((p2[k2], p2[k2 + 1])));
        }
    }
    assert(q.first() == a && q.last() == c);
    assert(is_path(edges, q));
}

/// Every node of a path is an edge endpoint, so it lies below `n`.
pub proof fn lemma_path_nodes_below(edges: Seq<(usize, usize)>, n: nat, p: Seq<usize>)
    requires
        edges_below(edges, n),
        is_path(edges, p),
    ensures
        forall|k: int| 0 <= k < p.len() ==> (#[trigger] p[k]) < n,
{
    assert forall|k: int| 0 <= k < p.len() implies (#[trigger] p[k]) < n by {
        if k < p.len() - 1 {
            let e = (p[k], p[k + 1]);
            assert(edges.contains(e));
            let idx = choose|i: int| 0 <= i < edges.len() && edges[i] == e;
            assert(edges[idx].0 < n);
        } else {
            let e = (p[k - 1], p[k]);
            assert(edges.contains(e));
            let idx = choose|i: int| 0 <= i < edges.len() && edges[i] == e;
            assert(edges[idx].1 < n);
        }
    }
}

// ---------------------------------------------------------------------------
// Counting true entries (used as a termination measure and for bookkeeping).
// ---------------------------------------------------------------------------

/// Number of `true` entries of a boolean sequence.
pub open spec fn count_true(r: Seq<bool>) -> nat
    decreases r.len(),
{
    if r.len() == 0 {
        0
    } else {
        count_true(r.drop_last()) + if r.last() {
            1nat
        } else {
            0nat
        }
    }
}

pub proof fn lemma_count_true_le_len(r: Seq<bool>)
    ensures
        count_true(r) <= r.len(),
    decreases r.len(),
{
    if r.len() > 0 {
        lemma_count_true_le_len(r.drop_last());
    }
}

/// Setting a `false` entry to `true` raises the count by one.
pub proof fn lemma_count_true_update(r: Seq<bool>, j: int)
    requires
        0 <= j < r.len(),
        !r[j],
    ensures
        count_true(r.update(j, true)) == count_true(r) + 1,
    decreases r.len(),
{
    let r2 = r.update(j, true);
    if j == r.len() - 1 {
        assert(r2.drop_last() =~= r.drop_last());
    } else {
        assert(r2.drop_last() =~= r.drop_last().update(j, true));
        lemma_count_true_update(r.drop_last(), j);
    }
}

/// A full count means every entry is `true`.
pub proof fn lemma_count_true_full(r: Seq<bool>)
    requires
        count_true(r) == r.len(),
    ensures
        forall|i: int| 0 <= i < r.len() ==> r[i],
    decreases r.len(),
{
    if r.len() > 0 {
        lemma_count_true_le_len(r.drop_last());
        lemma_count_true_full(r.drop_last());
        assert forall|i: int| 0 <= i < r.len() implies r[i] by {
            if i < r.len() - 1 {
                assert(r.drop_last()[i]);
            }
        }
    }
}

/// A count short of the length leaves some entry `false`.
pub proof fn lemma_count_true_partial(r: Seq<bool>)
    requires
        count_true(r) < r.len(),
    ensures
        exists|i: int| 0 <= i < r.len() && !r[i],
    decreases r.len(),
{
    if r.len() > 0 {
        if r.last() {
            lemma_count_true_partial(r.drop_last());
            let i = choose|i: int| 0 <= i < r.len() - 1 && !r.drop_last()[i];
            assert(!r[i]);
        } else {
            assert(!r[r.len() - 1]);
        }
    }
}

// ---------------------------------------------------------------------------
// Transitive closure.
// ---------------------------------------------------------------------------

/// An `n` by `n` grid given as a vector of boolean rows.
pub open spec fn is_square(m: Seq<Vec<bool>>, n: nat) -> bool {
    m.len() == n && forall|r: int| 0 <= r < m.len() ==> (#[trigger] m[r])@.len() == n
}

/// Every `true` entry is justified by a path.
pub open spec fn grid_sound(m: Seq<Vec<bool>>, edges: Seq<(usize, usize)>, n: nat) -> bool {
    forall|a: usize, b: usize|
        a < n && b < n && (#[trigger] m[a as int]@[b as int]) ==> reaches(edges, a, b)
}

/// The grid holds every edge.
pub open spec fn grid_seeded(m: Seq<Vec<bool>>, edges: Seq<(usize, usize)>) -> bool {
    forall|k: int| 0 <= k < edges.len() ==> m[(#[trigger] edges[k]).0 as int]@[edges[k].1 as int]
}

/// The grid is closed under composition of its entries.
pub open spec fn grid_closed(m: Seq<Vec<bool>>, n: nat) -> bool {
    forall|i: usize, k: usize, j: usize|
        i < n && k < n && j < n && (#[trigger] m[i as int]@[k as int]) && (#[trigger] m[k as int]@[
            j as int]) ==> m[i as int]@[j as int]
}

/// Number of `true` entries of a grid.
pub open spec fn count_grid(m: Seq<Vec<bool>>) -> nat
    decreases m.len(),
{
    if m.len() == 0 {
        0
    } else {
        count_grid(m.drop_last()) + count_true(m.last()@)
    }
}

pub proof fn lemma_count_grid_update(m: Seq<Vec<bool>>, i: int, r: Vec<bool>)
    requires
        0 <= i < m.len(),
    ensures
        count_grid(m.update(i, r)) == count_grid(m) - count_true(m[i]@) + count_true(r@),
    decreases m.len(),
{
    let m2 = m.update(i, r);
    if i == m.len() - 1 {
        assert(m2.drop_last() =~= m.drop_last());
    } else {
        assert(m2.drop_last() =~= m.drop_last().update(i, r));
        assert(m2.last() == m.last());
        lemma_count_grid_update(m.drop_last(), i, r);
    }
}

pub proof fn lemma_count_grid_bound(m: Seq<Vec<bool>>, n: nat)
    requires
        forall|i: int| 0 <= i < m.len() ==> (#[trigger] m[i])@.len() == n,
    ensures
        count_grid(m) <= m.len() * n,
    decreases m.len(),
{
    if m.len() > 0 {
        lemma_count_grid_bound(m.drop_last(), n);
        lemma_count_true_le_len(m.last()@);
        assert(m.len() * n == (m.len() - 1) * n + n) by (nonlinear_arith);
    }
}

/// A grid with one row short of full count stays under `len * n`.
proof fn lemma_count_grid_strict_rec(m: Seq<Vec<bool>>, n: nat, i: int)
    requires
        forall|r: int| 0 <= r < m.len() ==> (#[trigger] m[r])@.len() == n,
        0 <= i < m.len(),
        count_true(m[i]@) < n,
    ensures
        count_grid(m) < m.len() * n,
    decreases m.len(),
{
    if i == m.len() - 1 {
        lemma_count_grid_bound(m.drop_last(), n);
        assert(m.len() * n == (m.len() - 1) * n + n) by (nonlinear_arith);
    } else {
        lemma_count_grid_strict_rec(m.drop_last(), n, i);
        lemma_count_true_le_len(m.last()@);
        assert(m.len() * n == (m.len() - 1) * n + n) by (nonlinear_arith);
    }
}

/// A square grid with any `false` entry counts strictly under `n * n`.
proof fn lemma_count_grid_strict(m: Seq<Vec<bool>>, n: nat, i: int, j: int)
    requires
        is_square(m, n),
        0 <= i < n,
        0 <= j < n,
        !m[i]@[j],
    ensures
        count_grid(m) < n * n,
{
    lemma_count_true_le_len(m[i]@);
    if count_true(m[i]@) == n {
        lemma_count_true_full(m[i]@);
        assert(false);
    }
    lemma_count_grid_strict_rec(m, n, i);
}

/// A seeded and closed grid contains every reachable pair.
pub proof fn lemma_closed_grid_complete(
    m: Seq<Vec<bool>>,
    edges: Seq<(usize, usize)>,
    n: nat,
    p: Seq<usize>,
)
    requires
        edges_below(edges, n),
        is_square(m, n),
        grid_seeded(m, edges),
        grid_closed(m, n),
        is_path(edges, p),
    ensures
        m[p.first() as int]@[p.last() as int],
    decreases p.len(),
{
    lemma_path_nodes_below(edges, n, p);
    if p.len() == 2 {
        let e = (p[0], p[1]);
        assert(edges.contains(e));
        let k = choose|k: int| 0 <= k < edges.len() && edges[k] == e;
        assert(m[edges[k].0 as int]@[edges[k].1 as int]);
    } else {
        let q = p.subrange(1, p.len() as int);
        assert forall|k: int| 0 <= k < q.len() - 1 implies edges.contains(
            ((#[trigger] q[k]), q[k + 1]),
        ) by {
            assert(q[k] == p[k + 1] && q[k + 1] == p[k + 2]);
            assert(edges.contains((p[k + 1], p[k + 1 + 1])));
        }
        assert(is_path(edges, q));
        lemma_closed_grid_complete(m, edges, n, q);
        let e = (p[0], p[1]);
        assert(edges.contains(e));
        let k = choose|k: int| 0 <= k < edges.len() && edges[k] == e;
        assert(m[edges[k].0 as int]@[edges[k].1 as int]);
        assert(m[p[0] as int]@[p[1] as int] && m[p[1] as int]@[p.last() as int]);
    }
}

/// Looks for a composition `(i, k, j)` whose conclusion entry is still
/// missing; reports `None` exactly when the grid is closed.
#[verifier::loop_isolation(false)]
fn find_missing(m: &Vec<Vec<bool>>, n: usize) -> (r: Option<(usize, usize, usize)>)
    requires
        is_square(m@, n as nat),
    ensures
        match r {
            None => grid_closed(m@, n as nat),
            Some(t) => t.0 < n && t.1 < n && t.2 < n && m@[t.0 as int]@[t.1 as int] && m@[t.1
                as int]@[t.2 as int] && !m@[t.0 as int]@[t.2 as int],
        },
{
    let mut i: usize = 0;
    while i < n
        invariant
            i <= n,
            forall|a: usize, b: usize, c: usize|
                a < i && b < n && c < n && (#[trigger] m@[a as int]@[b as int]) && (#[trigger] m@[b
                    as int]@[c as int]) ==> m@[a as int]@[c as int],
        decreases n - i,
    {
        let mut k: usize = 0;
        while k < n
            invariant
                i < n,
                k <= n,
                forall|b: usize, c: usize|
                    b < k && c < n && (#[trigger] m@[i as int]@[b as int]) && (#[trigger] m@[b
                        as int]@[c as int]) ==> m@[i as int]@[c as int],
            decreases n - k,
        {
            let mut j: usize = 0;
            while j < n
                invariant
                    i < n,
                    k < n,
                    j <= n,
                    forall|c: usize|
                        c < j && (#[trigger] m@[i as int]@[k as int]) && m@[k as int]@[c as int]
                            ==> m@[i as int]@[c as int],
                decreases n - j,
            {
                if m[i][k] && m[k][j] && !m[i][j] {
                    return Some((i, k, j));
                }
                j = j + 1;
            }
            k = k + 1;
        }
        i = i + 1;
    }
    None
}

/// A fresh `n` by `n` grid of `false` entries.
fn grid_new(n: usize) -> (m: Vec<Vec<bool>>)
    ensures
        is_square(m@, n as nat),
        forall|r: int, c: int| 0 <= r < n && 0 <= c < n ==> !(#[trigger] m@[r]@[c]),
{
    let mut m: Vec<Vec<bool>> = Vec::new();
    let mut i: usize = 0;
    while i < n
        invariant
            i <= n,
            m@.len() == i,
            forall|r: int| 0 <= r < i ==> (#[trigger] m@[r])@.len() == n,
            forall|r: int, c: int| 0 <= r < i && 0 <= c < n ==> !(#[trigger] m@[r]@[c]),
        decreases n - i,
    {
        let mut row: Vec<bool> = Vec::new();
        let mut j: usize = 0;
        while j < n
            invariant
                j <= n,
                row@.len() == j,
                forall|c: int| 0 <= c < j ==> !(#[trigger] row@[c]),
            decreases n - j,
        {
            row.push(false);
            j = j + 1;
        }
        m.push(row);
        i = i + 1;
    }
    m
}

/// Marks every direct edge in the grid.
#[verifier::loop_isolation(false)]
fn seed_edges(m: &mut Vec<Vec<bool>>, n: usize, edges: &Vec<(usize, usize)>)
    requires
        edges_below(edges@, n as nat),
        is_square(old(m)@, n as nat),
        grid_sound(old(m)@, edges@, n as nat),
    ensures
        is_square(final(m)@, n as nat),
        grid_sound(final(m)@, edges@, n as nat),
        grid_seeded(final(m)@, edges@),
{
    let mut k: usize = 0;
    while k < edges.len()
        invariant
            k <= edges@.len(),
            is_square(m@, n as nat),
            grid_sound(m@, edges@, n as nat),
            forall|kk: int|
                0 <= kk < k ==> m@[(#[trigger] edges@[kk]).0 as int]@[edges@[kk].1 as int],
        decreases edges@.len() - k,
    {
        let (a, b) = edges[k];
        let ghost before = m@;
        m[a][b] = true;
        proof {
            assert(m@[a as int]@ =~= before[a as int]@.update(b as int, true));
            assert(m@ =~= before.update(a as int, m@[a as int]));
            assert(edges@[k as int] == (a, b));
            assert(edges@.contains((a, b)));
            lemma_edge_reaches(edges@, a, b);
        }
        k = k + 1;
    }
}

/// Marks one reachable pair in the grid, raising the count by exactly one.
#[verifier::loop_isolation(false)]
fn add_entry(m: &mut Vec<Vec<bool>>, n: usize, edges: &Vec<(usize, usize)>, i: usize, j: usize)
    requires
        edges_below(edges@, n as nat),
        is_square(old(m)@, n as nat),
        grid_sound(old(m)@, edges@, n as nat),
        grid_seeded(old(m)@, edges@),
        i < n,
        j < n,
        !old(m)@[i as int]@[j as int],
        reaches(edges@, i, j),
    ensures
        is_square(final(m)@, n as nat),
        grid_sound(final(m)@, edges@, n as nat),
        grid_seeded(final(m)@, edges@),
        count_grid(final(m)@) == count_grid(old(m)@) + 1,
{
    let ghost before = m@;
    m[i][j] = true;
    proof {
        assert(m@[i as int]@ =~= before[i as int]@.update(j as int, true));
        assert(m@ =~= before.update(i as int, m@[i as int]));
        lemma_count_true_update(before[i as int]@, j as int);
        lemma_count_grid_update(before, i as int, m@[i as int]);
        assert forall|a: usize, b: usize|
            a < n && b < n && (#[trigger] m@[a as int]@[b as int]) implies reaches(
            edges@,
            a,
            b,
        ) by {
            if a != i || b != j {
                assert(before[a as int]@[b as int]);
            }
        }
        assert forall|k: int| 0 <= k < edges@.len() implies m@[(#[trigger] edges@[k]).0 as int]@[
            edges@[k].1 as int] by {
            assert(before[edges@[k].0 as int]@[edges@[k].1 as int]);
        }
    }
}

/// Adds missing compositions one at a time until the grid is closed.
#[verifier::loop_isolation(false)]
fn saturate(m: &mut Vec<Vec<bool>>, n: usize, edges: &Vec<(usize, usize)>)
    requires
        edges_below(edges@, n as nat),
        is_square(old(m)@, n as nat),
        grid_sound(old(m)@, edges@, n as nat),
        grid_seeded(old(m)@, edges@),
    ensures
        is_square(final(m)@, n as nat),
        grid_sound(final(m)@, edges@, n as nat),
        grid_seeded(final(m)@, edges@),
        grid_closed(final(m)@, n as nat),
{
    let mut settled: bool = false;
    while !settled
        invariant
            is_square(m@, n as nat),
            grid_sound(m@, edges@, n as nat),
            grid_seeded(m@, edges@),
            settled ==> grid_closed(m@, n as nat),
        decreases
                (n as nat) * (n as nat) - count_grid(m@),
                if settled {
                    0int
                } else {
                    1int
                },
    {
        proof {
            lemma_count_grid_bound(m@, n as nat);
        }
        match find_missing(&*m, n) {
            None => {
                settled = true;
            },
            Some((i, k, j)) => {
                proof {
                    lemma_reaches_trans(edges@, i, k, j);
                    lemma_count_grid_strict(m@, n as nat, i as int, j as int);
                }
                add_entry(m, n, edges, i, j);
            },
        }
    }
}

/// Computes the transitive closure of `edges` over nodes `0..n`:
/// entry `(a, b)` of the result states exactly that `b` is reachable from `a`.
pub fn transitive_closure(n: usize, edges: &Vec<(usize, usize)>) -> (m: Vec<Vec<bool>>)
    requires
        edges_below(edges@, n as nat),
    ensures
        is_square(m@, n as nat),
        forall|a: usize, b: usize|
            a < n && b < n ==> ((#[trigger] m@[a as int]@[b as int]) <==> reaches(edges@, a, b)),
{
    let mut m = grid_new(n);
    seed_edges(&mut m, n, edges);
    saturate(&mut m, n, edges);
    proof {
        assert forall|a: usize, b: usize| a < n && b < n implies ((#[trigger] m@[a as int]@[b
            as int]) <==> reaches(edges@, a, b)) by {
            if reaches(edges@, a, b) {
                let p = choose|p: Seq<usize>|
                    #[trigger] is_path(edges@, p) && p.first() == a && p.last() == b;
                lemma_closed_grid_complete(m@, edges@, n as nat, p);
            }
        }
    }
    m
}

// ---------------------------------------------------------------------------
// Topological sorting.
// ---------------------------------------------------------------------------

/// `x` stands among the first `t` entries of the order.
pub open spec fn placed_before(order: Seq<usize>, t: int, x: usize) -> bool {
    exists|r: int| 0 <= r < t && order[r] == x
}

/// Some predecessor of `u` is still unplaced.
pub open spec fn blocked_node(
    placed: Seq<bool>,
    edges: Seq<(usize, usize)>,
    n: nat,
    u: usize,
) -> bool {
    exists|w: usize| w < n && !placed[w as int] && #[trigger] edges.contains((w, u))
}

/// Every unplaced node below `c` has an unplaced predecessor.
pub open spec fn all_blocked_below(
    placed: Seq<bool>,
    edges: Seq<(usize, usize)>,
    n: nat,
    c: usize,
) -> bool {
    forall|u: usize|
        u < c && !placed[u as int] ==> #[trigger] blocked_node(placed, edges, n, u)
}

/// Extends the blocked-below bound by one node that is placed or blocked.
proof fn lemma_all_blocked_extend(
    placed: Seq<bool>,
    edges: Seq<(usize, usize)>,
    n: nat,
    v: usize,
)
    requires
        all_blocked_below(placed, edges, n, v),
        v < n,
        placed[v as int] || blocked_node(placed, edges, n, v),
    ensures
        all_blocked_below(placed, edges, n, (v + 1) as usize),
{
    assert forall|u: usize| u < v + 1 && !placed[u as int] implies #[trigger] blocked_node(
        placed,
        edges,
        n,
        u,
    ) by {
        if u < v {
            assert(blocked_node(placed, edges, n, u));
        }
    }
}

/// Node `i` was rightly passed over at step `t`: it was already placed, or
/// one of its predecessors was still waiting.
pub open spec fn greedy_ok(
    order: Seq<usize>,
    edges: Seq<(usize, usize)>,
    t: int,
    i: usize,
) -> bool {
    ||| placed_before(order, t, i)
    ||| exists|k: int|
        0 <= k < edges.len() && (#[trigger] edges[k]).1 == i && !placed_before(
            order,
            t,
            edges[k].0,
        )
}

/// The justification for passing a node over survives appending to the
/// order.
proof fn lemma_greedy_ok_stable(
    order_pre: Seq<usize>,
    order_post: Seq<usize>,
    edges: Seq<(usize, usize)>,
    t: int,
    i: usize,
)
    requires
        greedy_ok(order_pre, edges, t, i),
        t <= order_pre.len(),
        order_post.len() >= order_pre.len(),
        forall|r: int| 0 <= r < order_pre.len() ==> order_post[r] == order_pre[r],
    ensures
        greedy_ok(order_post, edges, t, i),
{
    if placed_before(order_pre, t, i) {
        let r = choose|r: int| 0 <= r < t && order_pre[r] == i;
        assert(order_post[r] == i);
    } else {
        let k = choose|k: int|
            0 <= k < edges.len() && (#[trigger] edges[k]).1 == i && !placed_before(
                order_pre,
                t,
                edges[k].0,
            );
        assert(!placed_before(order_post, t, edges[k].0)) by {
            if placed_before(order_post, t, edges[k].0) {
                let r = choose|r: int| 0 <= r < t && order_post[r] == edges[k].0;
                assert(order_pre[r] == edges[k].0);
            }
        }
    }
}

/// `order` enumerates `0..n` once each, `pos` is its inverse, and every edge
/// points forward in `order`.
pub open spec fn topo_valid(
    n: nat,
    edges: Seq<(usize, usize)>,
    order: Seq<usize>,
    pos: Seq<usize>,
) -> bool {
    &&& order.len() == n
    &&& pos.len() == n
    &&& forall|i: int| 0 <= i < n ==> (#[trigger] order[i]) < n
    &&& forall|v: int| 0 <= v < n ==> (#[trigger] pos[v]) < n
    &&& forall|v: int| 0 <= v < n ==> order[(#[trigger] pos[v]) as int] == v
    &&& forall|i: int| 0 <= i < n ==> pos[(#[trigger] order[i]) as int] == i
    &&& forall|k: int|
        0 <= k < edges.len() ==> pos[(#[trigger] edges[k]).0 as int] < pos[edges[k].1 as int]
}

/// In a topologically ordered graph, positions rise along every path.
#[verifier::rlimit(50)]
pub proof fn lemma_pos_rises_along_path(
    edges: Seq<(usize, usize)>,
    pos: Seq<usize>,
    p: Seq<usize>,
)
    requires
        is_path(edges, p),
        forall|k: int|
            0 <= k < edges.len() ==> pos[(#[trigger] edges[k]).0 as int] < pos[edges[k].1 as int],
    ensures
        pos[p.first() as int] < pos[p.last() as int],
    decreases p.len(),
{
    if p.len() == 2 {
        let e = (p[0], p[1]);
        assert(edges.contains(e));
        let k = choose|k: int| 0 <= k < edges.len() && edges[k] == e;
        assert(pos[edges[k].0 as int] < pos[edges[k].1 as int]);
    } else {
        let q = p.subrange(1, p.len() as int);
        assert forall|k: int| 0 <= k < q.len() - 1 implies edges.contains(
            ((#[trigger] q[k]), q[k + 1]),
        ) by {
            assert(q[k] == p[k + 1] && q[k + 1] == p[k + 2]);
            assert(edges.contains((p[k + 1], p[k + 1 + 1])));
        }
        assert(is_path(edges, q));
        lemma_pos_rises_along_path(edges, pos, q);
        let e = (p[0], p[1]);
        assert(edges.contains(e));
        let k = choose|k: int| 0 <= k < edges.len() && edges[k] == e;
        assert(pos[edges[k].0 as int] < pos[edges[k].1 as int]);
    }
}

/// A graph with a topological order has no cycle.
pub proof fn lemma_topo_valid_acyclic(
    n: nat,
    edges: Seq<(usize, usize)>,
    order: Seq<usize>,
    pos: Seq<usize>,
)
    requires
        topo_valid(n, edges, order, pos),
    ensures
        forall|i: usize| i < n ==> !(#[trigger] reaches(edges, i, i)),
{
    assert forall|i: usize| i < n implies !(#[trigger] reaches(edges, i, i)) by {
        if reaches(edges, i, i) {
            let p = choose|p: Seq<usize>|
                #[trigger] is_path(edges, p) && p.first() == i && p.last() == i;
            lemma_pos_rises_along_path(edges, pos, p);
        }
    }
}

/// A sequence longer than `n` over values below `n` repeats a value.
proof fn lemma_pigeonhole(s: Seq<usize>, n: nat)
    requires
        forall|i: int| 0 <= i < s.len() ==> (#[trigger] s[i]) < n,
        s.len() > n,
    ensures
        exists|i: int, j: int| 0 <= i < j < s.len() && s[i] == s[j],
{
    let si = Seq::new(s.len(), |i: int| s[i] as int);
    if si.no_duplicates() {
        si.unique_seq_to_set();
        assert(si.to_set().subset_of(set_int_range(0, n as int))) by {
            assert forall|x: int| si.to_set().contains(x) implies set_int_range(
                0,
                n as int,
            ).contains(x) by {
                let i = choose|i: int| 0 <= i < si.len() && si[i] == x;
                assert(s[i] < n);
            }
        }
        lemma_int_range(0, n as int);
        lemma_len_subset(si.to_set(), set_int_range(0, n as int));
        assert(false);
    } else {
        let (i, j) = choose|i: int, j: int|
            0 <= i < si.len() && 0 <= j < si.len() && i != j && si[i] == si[j];
        if i < j {
            assert(s[i] == s[j]);
        } else {
            assert(s[j] == s[i]);
        }
    }
}

/// Walks backwards from `v0`, always stepping to a predecessor inside the
/// stuck set, producing a walk of the requested length.
proof fn build_pred_walk(
    edges: Seq<(usize, usize)>,
    n: nat,
    placed: Seq<bool>,
    v0: usize,
    len: nat,
) -> (w: Seq<usize>)
    requires
        placed.len() == n,
        v0 < n,
        !placed[v0 as int],
        forall|v: usize|
            v < n && !placed[v as int] ==> exists|u: usize|
                u < n && !placed[u as int] && #[trigger] edges.contains((u, v)),
        len >= 1,
    ensures
        w.len() == len,
        w[0] == v0,
        forall|t: int| 0 <= t < w.len() ==> (#[trigger] w[t]) < n && !placed[w[t] as int],
        forall|t: int| 0 <= t < w.len() - 1 ==> edges.contains(((#[trigger] w[t + 1]), w[t])),
    decreases len,
{
    if len == 1 {
        let w = seq![v0];
        w
    } else {
        let w0 = build_pred_walk(edges, n, placed, v0, (len - 1) as nat);
        let last = w0[w0.len() - 1];
        let u = choose|u: usize| u < n && !placed[u as int] && #[trigger] edges.contains((u, last));
        let w = w0.push(u);
        assert forall|t: int| 0 <= t < w.len() - 1 implies edges.contains(
            ((#[trigger] w[t + 1]), w[t]),
        ) by {
            if t < w0.len() - 1 {
                assert(w[t + 1] == w0[t + 1] && w[t] == w0[t]);
            } else {
                assert(w[t] == last && w[t + 1] == u);
            }
        }
        w
    }
}

/// When every unplaced node keeps an unplaced predecessor, the graph is cyclic.
#[verifier::rlimit(50)]
proof fn lemma_stuck_implies_cycle(edges: Seq<(usize, usize)>, n: nat, placed: Seq<bool>, v0: usize)
    requires
        placed.len() == n,
        v0 < n,
        !placed[v0 as int],
        forall|v: usize|
            v < n && !placed[v as int] ==> exists|u: usize|
                u < n && !placed[u as int] && #[trigger] edges.contains((u, v)),
    ensures
        exists|i: usize| i < n && reaches(edges, i, i),
{
    let w = build_pred_walk(edges, n, placed, v0, n + 1);
    lemma_pigeonhole(w, n);
    let (t1, t2) = choose|i: int, j: int| 0 <= i < j < w.len() && w[i] == w[j];
    // Reverse the walk segment between the repeats into a forward path.
    let p = Seq::new((t2 - t1 + 1) as nat, |a: int| w[t2 - a]);
    assert forall|k: int| 0 <= k < p.len() - 1 implies edges.contains(
        ((#[trigger] p[k]), p[k + 1]),
    ) by {
        let t = t2 - k - 1;
        assert(p[k] == w[t + 1] && p[k + 1] == w[t]);
        assert(edges.contains((w[t + 1], w[t])));
    }
    assert(p.len() >= 2);
    assert(is_path(edges, p));
    assert(p.first() == w[t2] && p.last() == w[t1]);
    let i = w[t2];
    assert(i < n && reaches(edges, i, i));
}

/// Stable topological sort over nodes `0..n` (Kahn's algorithm, always taking
/// the smallest ready node, so ties fall back to node order). Returns the
/// order together with its inverse `pos`, or `None` exactly when the graph has
/// a cycle.
#[verifier::loop_isolation(false)]
pub fn topo_sort(n: usize, edges: &Vec<(usize, usize)>) -> (r: Option<(Vec<usize>, Vec<usize>)>)
    requires
        edges_below(edges@, n as nat),
    ensures
        match r {
            Some(op) => topo_valid(n as nat, edges@, op.0@, op.1@) && (forall|t: int, i: usize|
                0 <= t < n && i < op.0@[t] ==> #[trigger] greedy_ok(op.0@, edges@, t, i)),
            None => exists|i: usize| i < n && reaches(edges@, i, i),
        },
{
    let mut placed: Vec<bool> = Vec::new();
    let mut pos: Vec<usize> = Vec::new();
    let mut order: Vec<usize> = Vec::new();
    let mut t: usize = 0;
    while t < n
        invariant
            t <= n,
            placed@.len() == t,
            pos@.len() == t,
            forall|v: int| 0 <= v < t ==> !(#[trigger] placed@[v]),
        decreases n - t,
    {
        placed.push(false);
        pos.push(0);
        t = t + 1;
    }
    proof {
        lemma_count_zero_all_false(placed@);
    }
    while order.len() < n
        invariant
            placed@.len() == n,
            pos@.len() == n,
            order@.len() <= n,
            count_true(placed@) == order@.len(),
            forall|i: int|
                0 <= i < order@.len() ==> (#[trigger] order@[i]) < n && placed@[order@[i] as int]
                    && pos@[order@[i] as int] == i,
            forall|v: int|
                0 <= v < n && (#[trigger] placed@[v]) ==> pos@[v] < order@.len() && order@[pos@[v]
                    as int] == v as usize,
            forall|k: int|
                0 <= k < edges@.len() && placed@[(#[trigger] edges@[k]).1 as int] ==> placed@[
                    edges@[k].0 as int] && pos@[edges@[k].0 as int] < pos@[edges@[k].1 as int],
            forall|t: int, i: usize|
                0 <= t < order@.len() && i < order@[t] ==> #[trigger] greedy_ok(
                    order@,
                    edges@,
                    t,
                    i,
                ),
        decreases n - order.len(),
    {
        // Find the smallest node that is not placed and has all predecessors placed.
        let mut cand: usize = 0;
        let mut found: bool = false;
        let mut v: usize = 0;
        while v < n && !found
            invariant
                v <= n,
                placed@.len() == n,
                !found ==> all_blocked_below(placed@, edges@, n as nat, v),
                found ==> cand < n && !placed@[cand as int] && (forall|k: int|
                    0 <= k < edges@.len() && (#[trigger] edges@[k]).1 == cand ==> placed@[
                        edges@[k].0 as int]) && all_blocked_below(placed@, edges@, n as nat, cand),
            decreases n - v, (if found { 0int } else { 1int }),
        {
            if !placed[v] {
                // Check whether some predecessor of v is still unplaced.
                let mut blocked: bool = false;
                let ghost mut witness: usize = 0;
                let mut k: usize = 0;
                while k < edges.len()
                    invariant
                        k <= edges@.len(),
                        placed@.len() == n,
                        v < n,
                        !blocked ==> forall|kk: int|
                            0 <= kk < k && (#[trigger] edges@[kk]).1 == v ==> placed@[edges@[kk].0
                                as int],
                        blocked ==> witness < n && !placed@[witness as int] && edges@.contains(
                            (witness, v),
                        ),
                    decreases edges@.len() - k,
                {
                    let (a, b) = edges[k];
                    if b == v && !placed[a] {
                        blocked = true;
                        proof {
                            witness = a;
                            assert(edges@[k as int] == (a, b));
                            assert(edges@.contains((a, v)));
                        }
                    }
                    k = k + 1;
                }
                if !blocked {
                    cand = v;
                    found = true;
                } else {
                    proof {
                        assert(blocked_node(placed@, edges@, n as nat, v)) by {
                            let w = witness;
                            assert(w < n && !placed@[w as int] && edges@.contains((w, v)));
                        }
                        lemma_all_blocked_extend(placed@, edges@, n as nat, v);
                    }
                    v = v + 1;
                }
            } else {
                proof {
                    lemma_all_blocked_extend(placed@, edges@, n as nat, v);
                }
                v = v + 1;
            }
        }
        if !found {
            proof {
                lemma_count_true_le_len(placed@);
                lemma_count_true_partial(placed@);
                let bad = choose|i: int| 0 <= i < placed@.len() && !placed@[i];
                assert forall|u: usize| u < n && !placed@[u as int] implies exists|w: usize|
                    w < n && !placed@[w as int] && #[trigger] edges@.contains((w, u)) by {
                    assert(blocked_node(placed@, edges@, n as nat, u));
                    let w = choose|w: usize|
                        w < n && !placed@[w as int] && #[trigger] edges@.contains((w, u));
                    assert(w < n && !placed@[w as int] && edges@.contains((w, u)));
                }
                lemma_stuck_implies_cycle(edges@, n as nat, placed@, bad as usize);
            }
            return None;
        }
        let ghost placed_pre = placed@;
        let ghost order_pre = order@;
        proof {
            assert(all_blocked_below(placed_pre, edges@, n as nat, cand));
        }
        let idx = order.len();
        placed[cand] = true;
        pos[cand] = idx;
        order.push(cand);
        proof {
            assert(placed@ =~= placed_pre.update(cand as int, true));
            lemma_count_true_update(placed_pre, cand as int);
            assert forall|t: int, i: usize|
                0 <= t < order@.len() && i < order@[t] implies #[trigger] greedy_ok(
                order@,
                edges@,
                t,
                i,
            ) by {
                if t < order_pre.len() {
                    assert(order@[t] == order_pre[t]);
                    assert(greedy_ok(order_pre, edges@, t, i));
                    lemma_greedy_ok_stable(order_pre, order@, edges@, t, i);
                } else {
                    assert(order@[t] == cand);
                    if placed_pre[i as int] {
                        assert(order@[pos@[i as int] as int] == i);
                        assert(pos@[i as int] < idx);
                        assert(placed_before(order@, t, i));
                    } else {
                        assert(i < cand && !placed_pre[i as int]);
                        assert(blocked_node(placed_pre, edges@, n as nat, i));
                        let w = choose|w: usize|
                            w < n && !placed_pre[w as int] && #[trigger] edges@.contains((w, i));
                        assert(edges@.contains((w, i)));
                        let k = choose|k: int|
                            0 <= k < edges@.len() && edges@[k] == (w, i);
                        assert(!placed_before(order@, t, w)) by {
                            if placed_before(order@, t, w) {
                                let r = choose|r: int| 0 <= r < t && order@[r] == w;
                                assert(order_pre[r] == w);
                                assert(placed_pre[order_pre[r] as int]);
                            }
                        }
                        assert((#[trigger] edges@[k]).1 == i);
                    }
                }
            }
        }
    }
    proof {
        lemma_count_true_full(placed@);
        assert forall|v: int| 0 <= v < n implies (#[trigger] pos@[v]) < n && order@[pos@[v] as int]
            == v by {
            assert(placed@[v]);
        }
        assert forall|k: int| 0 <= k < edges@.len() implies pos@[(#[trigger] edges@[k]).0 as int]
            < pos@[edges@[k].1 as int] by {
            assert(placed@[edges@[k].1 as int]);
        }
    }
    Some((order, pos))
}

/// An all-false count is zero; stated for reuse at initialisation sites.
proof fn lemma_count_zero_all_false(r: Seq<bool>)
    requires
        forall|i: int| 0 <= i < r.len() ==> !(#[trigger] r[i]),
    ensures
        count_true(r) == 0,
    decreases r.len(),
{
    if r.len() > 0 {
        lemma_count_zero_all_false(r.drop_last());
    }
}

} // verus!
