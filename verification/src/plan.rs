//! The build pass: what each structural error means, what a valid execution
//! plan is, and the pass that lowers the graph into one.
//!
//! All conditions are stated over the schedule's edge lists through
//! [`crate::graph::reaches`]; the dependency relation *after lowering sets to
//! their systems* is stated through the canonical edge enumeration
//! [`lowered_list`].

use vstd::prelude::*;
use crate::graph::{edges_below, is_path, reaches};
use crate::schedule::{ExecutionPlan, LogLevel, NodeEntry, NodeId, Schedule, ScheduleBuildError, SetKind};
use crate::system::accesses_conflict;

verus! {

// ---------------------------------------------------------------------------
// The lowered dependency relation.
// ---------------------------------------------------------------------------

impl Schedule {
    /// Node `u` stands for system `s`: it is `s` itself, or a set holding `s`
    /// transitively.
    pub open spec fn covers(self, u: usize, s: usize) -> bool {
        self.is_system_node(s as int) && (u == s || (self.is_set_node(u as int) && reaches(
            self.hierarchy@,
            s,
            u,
        )))
    }

    /// The dependency relation between systems once sets are expanded to the
    /// systems inside them.
    pub open spec fn lowered_edge(self, s: usize, t: usize) -> bool {
        exists|k: int|
            0 <= k < self.dependency@.len() && self.covers((#[trigger] self.dependency@[k]).0, s)
                && self.covers(self.dependency@[k].1, t)
    }

    /// Systems `s` and `t` are not ordered either way by the lowered
    /// dependency relation.
    pub open spec fn unordered(self, s: usize, t: usize) -> bool {
        !reaches(lowered_list(self), s, t) && !reaches(lowered_list(self), t, s)
    }

    /// The whitelist covers the pair, in either orientation.
    pub open spec fn whitelisted(self, s: usize, t: usize) -> bool {
        exists|k: int|
            0 <= k < self.ambiguities@.len() && ((self.covers(
                (#[trigger] self.ambiguities@[k]).0,
                s,
            ) && self.covers(self.ambiguities@[k].1, t)) || (self.covers(self.ambiguities@[k].0, t)
                && self.covers(self.ambiguities@[k].1, s)))
    }

    /// The public identity of arena slot `i`.
    pub open spec fn id_of(self, i: usize) -> NodeId {
        if self.is_system_node(i as int) {
            NodeId::System(i)
        } else {
            NodeId::SystemSet(i)
        }
    }
}

/// Every pair over `0..n`, in one canonical enumeration.
pub open spec fn all_pairs(n: nat) -> Seq<(usize, usize)> {
    Seq::new(n * n, |k: int| ((k / n as int) as usize, (k % n as int) as usize))
}

/// The canonical edge list of the lowered dependency relation.
pub open spec fn lowered_list(c: Schedule) -> Seq<(usize, usize)> {
    all_pairs(c.node_count()).filter(|e: (usize, usize)| c.lowered_edge(e.0, e.1))
}

/// Anything the filter kept was in the sequence and satisfies the predicate.
proof fn lemma_filter_subset<A>(s: Seq<A>, pred: spec_fn(A) -> bool, x: A)
    requires
        s.filter(pred).contains(x),
    ensures
        s.contains(x),
        pred(x),
    decreases s.len(),
{
    reveal(Seq::filter);
    if s.len() > 0 {
        let sub = s.drop_last().filter(pred);
        if pred(s.last()) && x == s.last() {
            assert(s[s.len() - 1] == x);
        } else {
            assert(sub.contains(x));
            lemma_filter_subset(s.drop_last(), pred, x);
            let i = choose|i: int| 0 <= i < s.drop_last().len() && s.drop_last()[i] == x;
            assert(s[i] == x);
        }
    }
}

/// Membership in the canonical list is exactly the lowered relation.
pub proof fn lemma_lowered_list_contains(c: Schedule, e: (usize, usize))
    ensures
        lowered_list(c).contains(e) <==> e.0 < c.node_count() && e.1 < c.node_count()
            && c.lowered_edge(e.0, e.1),
{
    let n = c.node_count();
    let pred = |e: (usize, usize)| c.lowered_edge(e.0, e.1);
    if lowered_list(c).contains(e) {
        lemma_filter_subset(all_pairs(n), pred, e);
        let k = choose|k: int| 0 <= k < all_pairs(n).len() && all_pairs(n)[k] == e;
        assert(0 <= k / (n as int) < n && 0 <= k % (n as int) < n) by (nonlinear_arith)
            requires
                0 <= k < n * n,
        {}
        assert(e == ((k / (n as int)) as usize, (k % (n as int)) as usize));
    }
    if e.0 < n && e.1 < n && c.lowered_edge(e.0, e.1) {
        let ki: int = e.0 * n + e.1;
        assert(0 <= ki < n * n && ki / (n as int) == e.0 && ki % (n as int) == e.1)
            by (nonlinear_arith)
            requires
                e.0 < n,
                e.1 < n,
                ki == e.0 * n + e.1,
        {}
        assert(all_pairs(n)[ki] == e);
        assert(all_pairs(n).contains(e));
        all_pairs(n).lemma_filter_contains(pred, ki);
    }
}

/// Two edge lists with the same members reach the same pairs.
pub proof fn lemma_reaches_same(e1: Seq<(usize, usize)>, e2: Seq<(usize, usize)>, a: usize, b: usize)
    requires
        forall|e: (usize, usize)| e1.contains(e) <==> e2.contains(e),
        reaches(e1, a, b),
    ensures
        reaches(e2, a, b),
{
    let p = choose|p: Seq<usize>| #[trigger] is_path(e1, p) && p.first() == a && p.last() == b;
    assert forall|k: int| 0 <= k < p.len() - 1 implies e2.contains(((#[trigger] p[k]), p[k + 1])) by {
        assert(e1.contains((p[k], p[k + 1])));
    }
    assert(is_path(e2, p));
}

// ---------------------------------------------------------------------------
// The structural error conditions.
// ---------------------------------------------------------------------------

impl Schedule {
    /// The hierarchy relation has a cycle.
    pub open spec fn hierarchy_cyclic(self) -> bool {
        exists|i: usize| i < self.node_count() && reaches(self.hierarchy@, i, i)
    }

    /// Some hierarchy edge is redundant: its child also reaches its parent
    /// through a longer path.
    pub open spec fn hierarchy_redundant(self) -> bool {
        exists|k: int, s: usize|
            0 <= k < self.hierarchy@.len() && #[trigger] reaches(
                self.hierarchy@,
                self.hierarchy@[k].0,
                s,
            ) && reaches(self.hierarchy@, s, self.hierarchy@[k].1)
    }

    /// The dependency relation over nodes has a cycle.
    pub open spec fn dependency_cyclic(self) -> bool {
        exists|i: usize| i < self.node_count() && reaches(self.dependency@, i, i)
    }

    /// Dependency edge `k` also relates its endpoints by hierarchy.
    pub open spec fn cross_at(self, k: int) -> bool {
        reaches(self.hierarchy@, self.dependency@[k].0, self.dependency@[k].1) || reaches(
            self.hierarchy@,
            self.dependency@[k].1,
            self.dependency@[k].0,
        )
    }

    /// Some dependency edge also relates its endpoints by hierarchy.
    pub open spec fn has_cross_dependency(self) -> bool {
        exists|k: int| 0 <= k < self.dependency@.len() && #[trigger] self.cross_at(k)
    }

    /// `a` must run before `b` (by the node-level dependency relation), yet
    /// system `s` sits inside both.
    pub open spec fn intersect_witness(self, a: usize, b: usize, s: usize) -> bool {
        &&& self.is_set_node(a as int)
        &&& self.is_set_node(b as int)
        &&& reaches(self.dependency@, a, b)
        &&& self.is_system_node(s as int)
        &&& reaches(self.hierarchy@, s, a)
        &&& reaches(self.hierarchy@, s, b)
    }

    /// Two ordered sets share a system.
    pub open spec fn has_order_intersect(self) -> bool {
        exists|a: usize, b: usize, s: usize| #[trigger] self.intersect_witness(a, b, s)
    }

    /// The type `key` has at least two instances.
    pub open spec fn type_multiple(self, key: u64) -> bool {
        exists|i1: int, i2: int|
            i1 != i2 && self.is_system_node(i1) && self.is_system_node(i2) && (
            #[trigger] self.sys_node(i1)).desc.type_key == key && (
            #[trigger] self.sys_node(i2)).desc.type_key == key
    }

    /// Node `u` is the type-set of a type with several instances.
    pub open spec fn ambiguous_type_set(self, u: usize, key: u64) -> bool {
        self.set_has_kind(u as int, SetKind::TypeSet(key)) && self.type_multiple(key)
    }

    /// An ordering or whitelist edge touches the type-set of a type with
    /// several instances.
    pub open spec fn type_amb_witness(self, key: u64) -> bool {
        ||| exists|k: int|
            0 <= k < self.dependency@.len() && (self.ambiguous_type_set(
                (#[trigger] self.dependency@[k]).0,
                key,
            ) || self.ambiguous_type_set(self.dependency@[k].1, key))
        ||| exists|k: int|
            0 <= k < self.ambiguities@.len() && (self.ambiguous_type_set(
                (#[trigger] self.ambiguities@[k]).0,
                key,
            ) || self.ambiguous_type_set(self.ambiguities@[k].1, key))
    }

    /// No edge among the first `m` of the list touches an overloaded
    /// type-set.
    pub open spec fn type_amb_clear_upto(self, edges: Seq<(usize, usize)>, m: int) -> bool {
        forall|kk: int, key: u64|
            0 <= kk < m ==> !(#[trigger] self.ambiguous_type_set(edges[kk].0, key))
                && !self.ambiguous_type_set(edges[kk].1, key)
    }

    /// Some edge touches an overloaded type-set.
    pub open spec fn has_type_set_ambiguity(self) -> bool {
        exists|key: u64| self.type_amb_witness(key)
    }

    /// The lowered dependency relation has a cycle that the node-level
    /// relation does not show.
    pub open spec fn lowered_cyclic(self) -> bool {
        exists|i: usize| i < self.node_count() && reaches(lowered_list(self), i, i)
    }

    /// Systems `s` and `t` conflict, are unordered, and are not whitelisted.
    pub open spec fn ambiguous_pair(self, s: usize, t: usize) -> bool {
        &&& self.is_system_node(s as int)
        &&& self.is_system_node(t as int)
        &&& s != t
        &&& self.unordered(s, t)
        &&& accesses_conflict(self.sys_node(s as int).desc, self.sys_node(t as int).desc)
        &&& !self.whitelisted(s, t)
    }

    /// Some conflicting pair is neither ordered nor whitelisted.
    pub open spec fn has_ambiguity(self) -> bool {
        exists|s: usize, t: usize| #[trigger] self.ambiguous_pair(s, t)
    }

    // Precedence: each stage is only reached when the stages before it were
    // clean.
    /// The build reaches the redundancy check.
    pub open spec fn stage_redundancy(self) -> bool {
        !self.hierarchy_cyclic()
    }

    /// The build reaches the node-level dependency cycle check.
    pub open spec fn stage_dep_cycle(self) -> bool {
        self.stage_redundancy() && !(self.settings.hierarchy_detection == LogLevel::Error
            && self.hierarchy_redundant())
    }

    /// The build reaches the cross-dependency check.
    pub open spec fn stage_cross(self) -> bool {
        self.stage_dep_cycle() && !self.dependency_cyclic()
    }

    /// The build reaches the order-but-intersect check.
    pub open spec fn stage_intersect(self) -> bool {
        self.stage_cross() && !self.has_cross_dependency()
    }

    /// The build reaches the type-set ambiguity check.
    pub open spec fn stage_type_amb(self) -> bool {
        self.stage_intersect() && !self.has_order_intersect()
    }

    /// The build reaches the lowered cycle check.
    pub open spec fn stage_lowered(self) -> bool {
        self.stage_type_amb() && !self.has_type_set_ambiguity()
    }

    /// The build reaches the ambiguity check.
    pub open spec fn stage_ambiguity(self) -> bool {
        self.stage_lowered() && !self.lowered_cyclic()
    }

    /// No check fails: the build produces a plan.
    pub open spec fn buildable(self) -> bool {
        self.stage_ambiguity() && !(self.settings.ambiguity_detection == LogLevel::Error
            && self.has_ambiguity())
    }
}

// ---------------------------------------------------------------------------
// What a valid plan is.
// ---------------------------------------------------------------------------

/// System `i` already stands among the first `q` entries of the plan order.
pub open spec fn sys_placed_before(order: Seq<usize>, q: int, i: usize) -> bool {
    exists|r: int| 0 <= r < q && order[r] == i
}

/// Why plan position `q` holds a later-inserted system than `i`: either `i`
/// was already placed, or a lowered edge into `i` starts at a system that
/// was itself not placed yet.
pub open spec fn stable_choice(c: Schedule, order: Seq<usize>, q: int, i: usize) -> bool {
    ||| sys_placed_before(order, q, i)
    ||| exists|s: usize| #[trigger] c.lowered_edge(s, i) && !sys_placed_before(order, q, s)
}

/// The plan matches the schedule's graph: `order` enumerates the system
/// nodes topologically, `pos` is its inverse, and the matrices restate the
/// lowered relation, the conflict relation and the gating sets in position
/// space. The last clause pins the stable tie-break: among systems the
/// lowered relation leaves unordered, earlier-inserted systems come first,
/// so any smaller-numbered system passed over at a position is excused by an
/// unplaced lowered predecessor.
pub open spec fn plan_matches(c: Schedule, p: ExecutionPlan) -> bool {
    let m = p.order@.len();
    &&& p.pos@.len() == c.node_count()
    &&& forall|q: int| 0 <= q < m ==> c.is_system_node((#[trigger] p.order@[q]) as int)
    &&& forall|i: usize|
        c.is_system_node(i as int) ==> (#[trigger] p.pos@[i as int]) < m && p.order@[p.pos@[i
            as int] as int] == i
    &&& forall|q: int| 0 <= q < m ==> p.pos@[(#[trigger] p.order@[q]) as int] == q
    &&& forall|s: usize, t: usize|
        #[trigger] c.lowered_edge(s, t) && c.is_system_node(s as int) && c.is_system_node(t as int)
            ==> p.pos@[s as int] < p.pos@[t as int]
    &&& p.dep@.len() == m
    &&& forall|q: int| 0 <= q < m ==> (#[trigger] p.dep@[q])@.len() == m
    &&& forall|q: int, r: int|
        0 <= q < m && 0 <= r < m ==> ((#[trigger] p.dep@[q]@[r]) <==> c.lowered_edge(
            p.order@[r],
            p.order@[q],
        ))
    &&& p.conflict@.len() == m
    &&& forall|q: int| 0 <= q < m ==> (#[trigger] p.conflict@[q])@.len() == m
    &&& forall|q: int, r: int|
        0 <= q < m && 0 <= r < m ==> ((#[trigger] p.conflict@[q]@[r]) <==> q != r && c.unordered(
            p.order@[q],
            p.order@[r],
        ) && accesses_conflict(
            c.sys_node(p.order@[q] as int).desc,
            c.sys_node(p.order@[r] as int).desc,
        ))
    &&& p.exclusive@.len() == m
    &&& forall|q: int|
        0 <= q < m ==> ((#[trigger] p.exclusive@[q]) == c.sys_node(
            p.order@[q] as int,
        ).desc.exclusive)
    &&& p.cond_sets@.len() == m
    &&& forall|q: int, j: int|
        0 <= q < m && 0 <= j < (#[trigger] p.cond_sets@[q])@.len() ==> (#[trigger] p.cond_sets@[q]@[j])
            < c.node_count()
    &&& forall|q: int, u: usize|
        0 <= q < m ==> ((#[trigger] p.cond_sets@[q]@.contains(u)) <==> c.is_set_node(u as int)
            && c.set_entry(u as int).conditions@.len() > 0 && reaches(
            c.hierarchy@,
            p.order@[q],
            u,
        ))
    &&& forall|q: int, j1: int, j2: int|
        0 <= q < m && 0 <= j1 < p.cond_sets@[q]@.len() && 0 <= j2 < p.cond_sets@[q]@.len() && j1
            != j2 ==> (#[trigger] p.cond_sets@[q]@[j1]) != (#[trigger] p.cond_sets@[q]@[j2])
    &&& forall|q: int, i: usize|
        0 <= q < m && c.is_system_node(i as int) && i < p.order@[q] ==> #[trigger] stable_choice(
            c,
            p.order@,
            q,
            i,
        )
}

// ---------------------------------------------------------------------------
// The build pass.
// ---------------------------------------------------------------------------

/// Finds a node that reaches itself in the closed matrix.
#[verifier::loop_isolation(false)]
fn find_self_reach(m: &Vec<Vec<bool>>, n: usize) -> (r: Option<usize>)
    requires
        crate::graph::is_square(m@, n as nat),
    ensures
        match r {
            Some(i) => i < n && m@[i as int]@[i as int],
            None => forall|i: int| 0 <= i < n ==> !(#[trigger] m@[i]@[i]),
        },
{
    let mut i: usize = 0;
    while i < n
        invariant
            i <= n,
            forall|k: int| 0 <= k < i ==> !(#[trigger] m@[k]@[k]),
        decreases n - i,
    {
        if m[i][i] {
            return Some(i);
        }
        i = i + 1;
    }
    None
}

impl Schedule {
    /// Whether slot `i` holds a system, decided.
    fn is_sys(&self, i: usize) -> (r: bool)
        requires
            i < self.nodes@.len(),
        ensures
            r == self.is_system_node(i as int),
    {
        match &self.nodes[i] {
            crate::schedule::NodeEntry::System(_) => true,
            crate::schedule::NodeEntry::SystemSet(_) => false,
        }
    }

    /// Whether `u` stands for system `s` under the hierarchy closure `hm`.
    fn covers_exec(&self, hm: &Vec<Vec<bool>>, u: usize, s: usize) -> (r: bool)
        requires
            u < self.nodes@.len(),
            s < self.nodes@.len(),
            crate::graph::is_square(hm@, self.node_count()),
            forall|a: usize, b: usize|
                a < self.node_count() && b < self.node_count() ==> ((#[trigger] hm@[a as int]@[b
                    as int]) <==> reaches(self.hierarchy@, a, b)),
        ensures
            r == self.covers(u, s),
    {
        if !self.is_sys(s) {
            return false;
        }
        if u == s {
            return true;
        }
        if self.is_sys(u) {
            return false;
        }
        hm[s][u]
    }

    /// Whether the type `key` has two or more instances.
    #[verifier::loop_isolation(false)]
    fn type_is_multiple(&self, key: u64) -> (r: bool)
        ensures
            r == self.type_multiple(key),
    {
        let mut found: bool = false;
        let ghost mut first: int = 0;
        let mut i: usize = 0;
        while i < self.nodes.len()
            invariant
                i <= self.nodes@.len(),
                found ==> 0 <= first < i && self.is_system_node(first) && self.sys_node(
                    first,
                ).desc.type_key == key,
                !found ==> forall|k: int|
                    0 <= k < i && self.is_system_node(k) ==> (#[trigger] self.sys_node(
                        k,
                    )).desc.type_key != key,
                forall|k1: int, k2: int|
                    0 <= k1 < i && 0 <= k2 < i && k1 != k2 && self.is_system_node(k1)
                        && self.is_system_node(k2) ==> !((#[trigger] self.sys_node(
                        k1,
                    )).desc.type_key == key && (#[trigger] self.sys_node(k2)).desc.type_key
                        == key),
            decreases self.nodes@.len() - i,
        {
            let hit = match &self.nodes[i] {
                crate::schedule::NodeEntry::System(sn) => sn.desc.type_key == key,
                crate::schedule::NodeEntry::SystemSet(_) => false,
            };
            if hit {
                if found {
                    proof {
                        assert(self.is_system_node(first) && self.sys_node(first).desc.type_key
                            == key);
                        assert(self.is_system_node(i as int) && self.sys_node(
                            i as int,
                        ).desc.type_key == key);
                    }
                    return true;
                }
                found = true;
                proof {
                    first = i as int;
                }
            }
            i = i + 1;
        }
        proof {
            if self.type_multiple(key) {
                let (i1, i2) = choose|i1: int, i2: int|
                    i1 != i2 && self.is_system_node(i1) && self.is_system_node(i2) && (
                    #[trigger] self.sys_node(i1)).desc.type_key == key && (#[trigger] self.sys_node(
                        i2,
                    )).desc.type_key == key;
                assert(false);
            }
        }
        false
    }

    /// Whether `u` is the type-set of a type with several instances,
    /// returning the key.
    fn ambiguous_type_set_exec(&self, u: usize) -> (r: Option<u64>)
        requires
            u < self.nodes@.len(),
        ensures
            match r {
                Some(key) => self.ambiguous_type_set(u, key),
                None => forall|key: u64| !self.ambiguous_type_set(u, key),
            },
    {
        let key_opt = match &self.nodes[u] {
            crate::schedule::NodeEntry::SystemSet(entry) => match entry.kind {
                SetKind::TypeSet(k) => Some(k),
                _ => None,
            },
            crate::schedule::NodeEntry::System(_) => None,
        };
        match key_opt {
            Some(k) => {
                if self.type_is_multiple(k) {
                    Some(k)
                } else {
                    None
                }
            },
            None => None,
        }
    }
}

impl Schedule {
    /// Decides the lowered dependency relation between two nodes.
    #[verifier::loop_isolation(false)]
    fn is_lowered_edge(&self, hm: &Vec<Vec<bool>>, s: usize, t: usize) -> (r: bool)
        requires
            s < self.nodes@.len(),
            t < self.nodes@.len(),
            self.edges_wf(),
            crate::graph::is_square(hm@, self.node_count()),
            forall|a: usize, b: usize|
                a < self.node_count() && b < self.node_count() ==> ((#[trigger] hm@[a as int]@[b
                    as int]) <==> reaches(self.hierarchy@, a, b)),
        ensures
            r == self.lowered_edge(s, t),
    {
        let mut k: usize = 0;
        while k < self.dependency.len()
            invariant
                k <= self.dependency@.len(),
                forall|kk: int|
                    0 <= kk < k ==> !(self.covers((#[trigger] self.dependency@[kk]).0, s)
                        && self.covers(self.dependency@[kk].1, t)),
            decreases self.dependency@.len() - k,
        {
            let (u, v) = self.dependency[k];
            if self.covers_exec(hm, u, s) && self.covers_exec(hm, v, t) {
                return true;
            }
            k = k + 1;
        }
        proof {
            if self.lowered_edge(s, t) {
                let kk = choose|kk: int|
                    0 <= kk < self.dependency@.len() && self.covers(
                        (#[trigger] self.dependency@[kk]).0,
                        s,
                    ) && self.covers(self.dependency@[kk].1, t);
            }
        }
        false
    }

    /// Decides whether the whitelist covers the pair, in either orientation.
    #[verifier::loop_isolation(false)]
    fn is_whitelisted(&self, hm: &Vec<Vec<bool>>, s: usize, t: usize) -> (r: bool)
        requires
            s < self.nodes@.len(),
            t < self.nodes@.len(),
            self.edges_wf(),
            crate::graph::is_square(hm@, self.node_count()),
            forall|a: usize, b: usize|
                a < self.node_count() && b < self.node_count() ==> ((#[trigger] hm@[a as int]@[b
                    as int]) <==> reaches(self.hierarchy@, a, b)),
        ensures
            r == self.whitelisted(s, t),
    {
        let mut k: usize = 0;
        while k < self.ambiguities.len()
            invariant
                k <= self.ambiguities@.len(),
                forall|kk: int|
                    0 <= kk < k ==> !((self.covers((#[trigger] self.ambiguities@[kk]).0, s)
                        && self.covers(self.ambiguities@[kk].1, t)) || (self.covers(
                        self.ambiguities@[kk].0,
                        t,
                    ) && self.covers(self.ambiguities@[kk].1, s))),
            decreases self.ambiguities@.len() - k,
        {
            let (u, v) = self.ambiguities[k];
            if self.covers_exec(hm, u, s) && self.covers_exec(hm, v, t) {
                return true;
            }
            if self.covers_exec(hm, u, t) && self.covers_exec(hm, v, s) {
                return true;
            }
            k = k + 1;
        }
        proof {
            if self.whitelisted(s, t) {
                let kk = choose|kk: int|
                    0 <= kk < self.ambiguities@.len() && ((self.covers(
                        (#[trigger] self.ambiguities@[kk]).0,
                        s,
                    ) && self.covers(self.ambiguities@[kk].1, t)) || (self.covers(
                        self.ambiguities@[kk].0,
                        t,
                    ) && self.covers(self.ambiguities@[kk].1, s)));
            }
        }
        false
    }

    /// Decides whether some hierarchy edge is redundant.
    #[verifier::loop_isolation(false)]
    #[verifier::rlimit(100)]
    #[verifier::spinoff_prover]
    fn check_redundancy(&self, n: usize, hm: &Vec<Vec<bool>>) -> (r: bool)
        requires
            n == self.node_count(),
            self.edges_wf(),
            crate::graph::is_square(hm@, n as nat),
            forall|x: usize, y: usize|
                x < n && y < n ==> ((#[trigger] hm@[x as int]@[y as int]) <==> reaches(
                    self.hierarchy@,
                    x,
                    y,
                )),
        ensures
            r == self.hierarchy_redundant(),
    {
        let mut k: usize = 0;
        while k < self.hierarchy.len()
            invariant
                k <= self.hierarchy@.len(),
                forall|kk: int, ss: usize|
                    0 <= kk < k && ss < self.node_count() ==> !(reaches(
                        self.hierarchy@,
                        (#[trigger] self.hierarchy@[kk]).0,
                        ss,
                    ) && #[trigger] reaches(self.hierarchy@, ss, self.hierarchy@[kk].1)),
            decreases self.hierarchy@.len() - k,
        {
            let (c, par) = self.hierarchy[k];
            let mut sm: usize = 0;
            while sm < n
                invariant
                    k < self.hierarchy@.len(),
                    (c, par) == self.hierarchy@[k as int],
                    sm <= n,
                    forall|ss: usize|
                        ss < sm ==> !(reaches(self.hierarchy@, c, ss) && #[trigger] reaches(
                            self.hierarchy@,
                            ss,
                            par,
                        )),
                decreases n - sm,
            {
                if hm[c][sm] && hm[sm][par] {
                    proof {
                        assert(self.hierarchy_redundant());
                    }
                    return true;
                }
                sm = sm + 1;
            }
            k = k + 1;
        }
        proof {
            assert(!self.hierarchy_redundant()) by {
                if self.hierarchy_redundant() {
                    let (kk, ss) = choose|kk: int, ss: usize|
                        0 <= kk < self.hierarchy@.len() && #[trigger] reaches(
                            self.hierarchy@,
                            self.hierarchy@[kk].0,
                            ss,
                        ) && reaches(self.hierarchy@, ss, self.hierarchy@[kk].1);
                    let pth = choose|pth: Seq<usize>|
                        #[trigger] is_path(self.hierarchy@, pth) && pth.first()
                            == self.hierarchy@[kk].0 && pth.last() == ss;
                    crate::graph::lemma_path_nodes_below(self.hierarchy@, self.node_count(), pth);
                    assert(ss < self.node_count());
                }
            }
        }
        false
    }

    /// Finds a dependency edge whose endpoints are also related by
    /// hierarchy.
    #[verifier::loop_isolation(false)]
    fn check_cross(&self, n: usize, hm: &Vec<Vec<bool>>) -> (r: Option<(usize, usize)>)
        requires
            n == self.node_count(),
            self.edges_wf(),
            crate::graph::is_square(hm@, n as nat),
            forall|x: usize, y: usize|
                x < n && y < n ==> ((#[trigger] hm@[x as int]@[y as int]) <==> reaches(
                    self.hierarchy@,
                    x,
                    y,
                )),
        ensures
            match r {
                Some(e) => self.has_cross_dependency() && e.0 < n && e.1 < n && exists|k: int|
                    0 <= k < self.dependency@.len() && #[trigger] self.cross_at(k)
                        && self.dependency@[k] == e,
                None => !self.has_cross_dependency(),
            },
    {
        let mut k: usize = 0;
        while k < self.dependency.len()
            invariant
                k <= self.dependency@.len(),
                forall|kk: int| 0 <= kk < k ==> !#[trigger] self.cross_at(kk),
            decreases self.dependency@.len() - k,
        {
            let (u, v) = self.dependency[k];
            if hm[u][v] || hm[v][u] {
                proof {
                    assert(self.cross_at(k as int));
                    assert(self.has_cross_dependency());
                    assert(self.dependency@[k as int] == (u, v));
                }
                return Some((u, v));
            }
            proof {
                assert(!self.cross_at(k as int));
            }
            k = k + 1;
        }
        proof {
            assert(!self.has_cross_dependency());
        }
        None
    }

    /// Finds two ordered sets that share a system.
    #[verifier::loop_isolation(false)]
    #[verifier::rlimit(100)]
    #[verifier::spinoff_prover]
    fn check_intersect(&self, n: usize, hm: &Vec<Vec<bool>>, dm: &Vec<Vec<bool>>) -> (r: Option<
        (usize, usize),
    >)
        requires
            n == self.node_count(),
            self.edges_wf(),
            crate::graph::is_square(hm@, n as nat),
            forall|x: usize, y: usize|
                x < n && y < n ==> ((#[trigger] hm@[x as int]@[y as int]) <==> reaches(
                    self.hierarchy@,
                    x,
                    y,
                )),
            crate::graph::is_square(dm@, n as nat),
            forall|x: usize, y: usize|
                x < n && y < n ==> ((#[trigger] dm@[x as int]@[y as int]) <==> reaches(
                    self.dependency@,
                    x,
                    y,
                )),
        ensures
            match r {
                Some(e) => self.has_order_intersect() && e.0 < n && e.1 < n && exists|sw: usize|
                    #[trigger] self.intersect_witness(e.0, e.1, sw),
                None => !self.has_order_intersect(),
            },
    {
        let mut a: usize = 0;
        while a < n
            invariant
                a <= n,
                forall|aa: usize, bb: usize, ss: usize|
                    aa < a ==> !#[trigger] self.intersect_witness(aa, bb, ss),
            decreases n - a,
        {
            let mut b: usize = 0;
            while b < n
                invariant
                    a < n,
                    b <= n,
                    forall|aa: usize, bb: usize, ss: usize|
                        aa < a ==> !#[trigger] self.intersect_witness(aa, bb, ss),
                    forall|bb: usize, ss: usize|
                        bb < b ==> !#[trigger] self.intersect_witness(a, bb, ss),
                decreases n - b,
            {
                if !self.is_sys(a) && !self.is_sys(b) && dm[a][b] {
                    let mut sm: usize = 0;
                    while sm < n
                        invariant
                            a < n,
                            b < n,
                            sm <= n,
                            forall|ss: usize|
                                ss < sm ==> !#[trigger] self.intersect_witness(a, b, ss),
                        decreases n - sm,
                    {
                        if self.is_sys(sm) && hm[sm][a] && hm[sm][b] {
                            proof {
                                assert(self.intersect_witness(a, b, sm));
                            }
                            return Some((a, b));
                        }
                        proof {
                            assert(!self.intersect_witness(a, b, sm));
                        }
                        sm = sm + 1;
                    }
                    proof {
                        assert(forall|ss: usize| !#[trigger] self.intersect_witness(a, b, ss)) by {
                            if exists|ss: usize| #[trigger] self.intersect_witness(a, b, ss) {
                                let ss = choose|ss: usize| #[trigger] self.intersect_witness(
                                    a,
                                    b,
                                    ss,
                                );
                            }
                        }
                    }
                } else {
                    proof {
                        assert(forall|ss: usize| !#[trigger] self.intersect_witness(a, b, ss)) by {
                            if exists|ss: usize| #[trigger] self.intersect_witness(a, b, ss) {
                                let ss = choose|ss: usize| #[trigger] self.intersect_witness(
                                    a,
                                    b,
                                    ss,
                                );
                                assert(dm@[a as int]@[b as int]);
                            }
                        }
                    }
                }
                b = b + 1;
            }
            a = a + 1;
        }
        proof {
            assert(!self.has_order_intersect()) by {
                if self.has_order_intersect() {
                    let (aa, bb, ss) = choose|aa: usize, bb: usize, ss: usize|
                        #[trigger] self.intersect_witness(aa, bb, ss);
                }
            }
        }
        None
    }

    /// Finds an ordering or whitelist edge that touches an overloaded
    /// type-set.
    #[verifier::loop_isolation(false)]
    fn check_type_amb(&self) -> (r: Option<u64>)
        requires
            self.edges_wf(),
        ensures
            match r {
                Some(key) => self.type_amb_witness(key),
                None => !self.has_type_set_ambiguity(),
            },
    {
        let mut k: usize = 0;
        while k < self.dependency.len()
            invariant
                k <= self.dependency@.len(),
                self.edges_wf(),
                self.type_amb_clear_upto(self.dependency@, k as int),
            decreases self.dependency@.len() - k,
        {
            let (u, v) = self.dependency[k];
            match self.ambiguous_type_set_exec(u) {
                Some(key) => {
                    proof {
                        assert(self.type_amb_witness(key));
                    }
                    return Some(key);
                },
                None => {},
            }
            match self.ambiguous_type_set_exec(v) {
                Some(key) => {
                    proof {
                        assert(self.type_amb_witness(key));
                    }
                    return Some(key);
                },
                None => {},
            }
            proof {
                assert forall|kk: int, key: u64|
                    0 <= kk < k + 1 implies !(#[trigger] self.ambiguous_type_set(
                    self.dependency@[kk].0,
                    key,
                )) && !self.ambiguous_type_set(self.dependency@[kk].1, key) by {}
            }
            k = k + 1;
        }
        let mut k: usize = 0;
        while k < self.ambiguities.len()
            invariant
                k <= self.ambiguities@.len(),
                self.edges_wf(),
                self.type_amb_clear_upto(self.dependency@, self.dependency@.len() as int),
                self.type_amb_clear_upto(self.ambiguities@, k as int),
            decreases self.ambiguities@.len() - k,
        {
            let (u, v) = self.ambiguities[k];
            match self.ambiguous_type_set_exec(u) {
                Some(key) => {
                    proof {
                        assert(self.type_amb_witness(key));
                    }
                    return Some(key);
                },
                None => {},
            }
            match self.ambiguous_type_set_exec(v) {
                Some(key) => {
                    proof {
                        assert(self.type_amb_witness(key));
                    }
                    return Some(key);
                },
                None => {},
            }
            proof {
                assert forall|kk: int, key: u64|
                    0 <= kk < k + 1 implies !(#[trigger] self.ambiguous_type_set(
                    self.ambiguities@[kk].0,
                    key,
                )) && !self.ambiguous_type_set(self.ambiguities@[kk].1, key) by {}
            }
            k = k + 1;
        }
        proof {
            assert(!self.has_type_set_ambiguity()) by {
                if self.has_type_set_ambiguity() {
                    let key = choose|key: u64| self.type_amb_witness(key);
                }
            }
        }
        None
    }

    /// Decides whether some conflicting pair of systems is neither ordered
    /// nor whitelisted.
    #[verifier::loop_isolation(false)]
    fn check_ambiguity(&self, n: usize, hm: &Vec<Vec<bool>>, lm: &Vec<Vec<bool>>) -> (r: bool)
        requires
            n == self.node_count(),
            self.edges_wf(),
            crate::graph::is_square(hm@, n as nat),
            forall|x: usize, y: usize|
                x < n && y < n ==> ((#[trigger] hm@[x as int]@[y as int]) <==> reaches(
                    self.hierarchy@,
                    x,
                    y,
                )),
            crate::graph::is_square(lm@, n as nat),
            forall|x: usize, y: usize|
                x < n && y < n ==> ((#[trigger] lm@[x as int]@[y as int]) <==> reaches(
                    lowered_list(*self),
                    x,
                    y,
                )),
        ensures
            r == self.has_ambiguity(),
    {
        let mut sp: usize = 0;
        while sp < n
            invariant
                sp <= n,
                forall|ss: usize, tt: usize| ss < sp ==> !#[trigger] self.ambiguous_pair(ss, tt),
            decreases n - sp,
        {
            let mut tq: usize = 0;
            while tq < n
                invariant
                    sp < n,
                    tq <= n,
                    forall|ss: usize, tt: usize|
                        ss < sp ==> !#[trigger] self.ambiguous_pair(ss, tt),
                    forall|tt: usize| tt < tq ==> !#[trigger] self.ambiguous_pair(sp, tt),
                decreases n - tq,
            {
                if sp != tq && self.is_sys(sp) && self.is_sys(tq) && !lm[sp][tq] && !lm[tq][sp]
                    && !self.is_whitelisted(hm, sp, tq) {
                    let conflicting = self.descs_conflict(sp, tq);
                    if conflicting {
                        proof {
                            assert(self.ambiguous_pair(sp, tq));
                        }
                        return true;
                    }
                }
                proof {
                    assert(!self.ambiguous_pair(sp, tq));
                }
                tq = tq + 1;
            }
            sp = sp + 1;
        }
        proof {
            assert(!self.has_ambiguity()) by {
                if self.has_ambiguity() {
                    let (ss, tt) = choose|ss: usize, tt: usize| #[trigger] self.ambiguous_pair(
                        ss,
                        tt,
                    );
                }
            }
        }
        false
    }

    /// Forces the build pass: lowers the graph into an execution plan, or
    /// returns the first structural error found. The graph itself is left
    /// untouched; on an error the cached plan stays empty.
    #[verifier::loop_isolation(false)]
    #[verifier::rlimit(100)]
    pub fn initialize(&mut self) -> (r: Result<(), ScheduleBuildError>)
        requires
            old(self).wf(),
        ensures
            final(self).wf(),
            final(self).nodes == old(self).nodes,
            final(self).hierarchy == old(self).hierarchy,
            final(self).dependency == old(self).dependency,
            final(self).ambiguities == old(self).ambiguities,
            final(self).settings == old(self).settings,
            final(self).cond_cache == old(self).cond_cache,
            r == Result::<(), ScheduleBuildError>::Ok(()) <==> old(self).buildable(),
            (r is Ok) ==> (final(self).plan is Some),
            r == Result::<(), ScheduleBuildError>::Err(ScheduleBuildError::HierarchyCycle)
                <==> old(self).hierarchy_cyclic(),
            r == Result::<(), ScheduleBuildError>::Err(ScheduleBuildError::HierarchyRedundancy)
                <==> old(self).stage_redundancy() && old(self).settings.hierarchy_detection
                == LogLevel::Error && old(self).hierarchy_redundant(),
            r == Result::<(), ScheduleBuildError>::Err(ScheduleBuildError::DependencyCycle)
                <==> old(self).stage_dep_cycle() && (old(self).dependency_cyclic() || (old(
                self,
            ).stage_lowered() && old(self).lowered_cyclic())),
            r matches Result::<(), ScheduleBuildError>::Err(ScheduleBuildError::CrossDependency(
                a,
                b,
            )) ==> exists|k: int|
                0 <= k < old(self).dependency@.len() && #[trigger] old(self).cross_at(k) && a
                    == old(self).id_of(old(self).dependency@[k].0) && b == old(self).id_of(
                    old(self).dependency@[k].1,
                ),
            r matches Result::<(), ScheduleBuildError>::Err(
                ScheduleBuildError::SetsHaveOrderButIntersect(a, b),
            ) ==> exists|ia: usize, ib: usize, sw: usize|
                #[trigger] old(self).intersect_witness(ia, ib, sw) && a == old(self).id_of(ia)
                    && b == old(self).id_of(ib),
            r matches Result::<(), ScheduleBuildError>::Err(
                ScheduleBuildError::SystemTypeSetAmbiguity(key),
            ) ==> old(self).type_amb_witness(key),
            (exists|e: ScheduleBuildError|
                r == Result::<(), ScheduleBuildError>::Err(e) && e is CrossDependency) <==> old(
                self,
            ).stage_cross() && old(self).has_cross_dependency(),
            (exists|e: ScheduleBuildError|
                r == Result::<(), ScheduleBuildError>::Err(e) && e is SetsHaveOrderButIntersect)
                <==> old(self).stage_intersect() && old(self).has_order_intersect(),
            (exists|e: ScheduleBuildError|
                r == Result::<(), ScheduleBuildError>::Err(e) && e is SystemTypeSetAmbiguity)
                <==> old(self).stage_type_amb() && old(self).has_type_set_ambiguity(),
            r == Result::<(), ScheduleBuildError>::Err(ScheduleBuildError::Ambiguity) <==> old(
                self,
            ).stage_ambiguity() && old(self).settings.ambiguity_detection == LogLevel::Error
                && old(self).has_ambiguity(),
    {
        if self.plan.is_some() {
            return Ok(());
        }
        let n = self.nodes.len();
        proof {
            assert(edges_below(self.hierarchy@, n as nat));
            assert(edges_below(self.dependency@, n as nat));
        }
        // Hierarchy closure and cycle check.
        let hm = crate::graph::transitive_closure(n, &self.hierarchy);
        match find_self_reach(&hm, n) {
            Some(i) => {
                proof {
                    assert(self.hierarchy_cyclic());
                }
                return Err(ScheduleBuildError::HierarchyCycle);
            },
            None => {
                proof {
                    assert(!self.hierarchy_cyclic()) by {
                        if self.hierarchy_cyclic() {
                            let i = choose|i: usize|
                                i < self.node_count() && reaches(self.hierarchy@, i, i);
                            assert(hm@[i as int]@[i as int]);
                        }
                    }
                }
            },
        }
        // Hierarchy redundancy.
        let strict_hierarchy = match self.settings.hierarchy_detection {
            LogLevel::Error => true,
            _ => false,
        };
        proof {
            assert(strict_hierarchy == (self.settings.hierarchy_detection == LogLevel::Error));
        }
        if strict_hierarchy {
            if self.check_redundancy(n, &hm) {
                return Err(ScheduleBuildError::HierarchyRedundancy);
            }
        }
        // Node-level dependency cycle check.
        let dm = crate::graph::transitive_closure(n, &self.dependency);
        match find_self_reach(&dm, n) {
            Some(i) => {
                proof {
                    assert(self.dependency_cyclic());
                }
                return Err(ScheduleBuildError::DependencyCycle);
            },
            None => {
                proof {
                    assert(!self.dependency_cyclic()) by {
                        if self.dependency_cyclic() {
                            let i = choose|i: usize|
                                i < self.node_count() && reaches(self.dependency@, i, i);
                            assert(dm@[i as int]@[i as int]);
                        }
                    }
                }
            },
        }
        // Cross dependencies.
        match self.check_cross(n, &hm) {
            Some((u, v)) => {
                proof {
                    let k = choose|k: int|
                        0 <= k < self.dependency@.len() && #[trigger] self.cross_at(k)
                            && self.dependency@[k] == (u, v);
                    assert(self.dependency@[k].0 == u && self.dependency@[k].1 == v);
                }
                return Err(
                    ScheduleBuildError::CrossDependency(self.id_of_exec(u), self.id_of_exec(v)),
                );
            },
            None => {},
        }
        // Ordered sets that share a system.
        match self.check_intersect(n, &hm, &dm) {
            Some((a, b)) => {
                proof {
                    let sw = choose|sw: usize| #[trigger] self.intersect_witness(a, b, sw);
                }
                return Err(
                    ScheduleBuildError::SetsHaveOrderButIntersect(
                        self.id_of_exec(a),
                        self.id_of_exec(b),
                    ),
                );
            },
            None => {},
        }
        // Edges touching overloaded type-sets.
        match self.check_type_amb() {
            Some(key) => {
                return Err(ScheduleBuildError::SystemTypeSetAmbiguity(key));
            },
            None => {},
        }
        // The lowered system-level relation, its closure, and its cycle check.
        let mut lowered: Vec<(usize, usize)> = Vec::new();
        let mut si: usize = 0;
        while si < n
            invariant
                si <= n,
                forall|e: (usize, usize)|
                    #[trigger] lowered@.contains(e) <==> e.0 < si && e.1 < n && self.lowered_edge(
                        e.0,
                        e.1,
                    ),
                forall|kk: int|
                    0 <= kk < lowered@.len() ==> (#[trigger] lowered@[kk]).0 < n && lowered@[kk].1
                        < n,
            decreases n - si,
        {
            let mut tj: usize = 0;
            while tj < n
                invariant
                    si < n,
                    tj <= n,
                    forall|e: (usize, usize)|
                        #[trigger] lowered@.contains(e) <==> (e.0 < si && e.1 < n
                            && self.lowered_edge(e.0, e.1)) || (e.0 == si && e.1 < tj
                            && self.lowered_edge(e.0, e.1)),
                    forall|kk: int|
                        0 <= kk < lowered@.len() ==> (#[trigger] lowered@[kk]).0 < n
                            && lowered@[kk].1 < n,
                decreases n - tj,
            {
                if self.is_lowered_edge(&hm, si, tj) {
                    let ghost before = lowered@;
                    lowered.push((si, tj));
                    proof {
                        assert forall|e: (usize, usize)| #[trigger] lowered@.contains(e) <==> (
                        before.contains(e) || e == (si, tj)) by {
                            if lowered@.contains(e) {
                                let kk = choose|kk: int|
                                    0 <= kk < lowered@.len() && lowered@[kk] == e;
                                if kk < before.len() {
                                    assert(before[kk] == e);
                                }
                            }
                            if before.contains(e) {
                                let kk = choose|kk: int| 0 <= kk < before.len() && before[kk] == e;
                                assert(lowered@[kk] == e);
                            }
                            assert(lowered@[lowered@.len() - 1] == (si, tj));
                        }
                    }
                }
                tj = tj + 1;
            }
            si = si + 1;
        }
        let lm = crate::graph::transitive_closure(n, &lowered);
        proof {
            assert forall|e: (usize, usize)| lowered@.contains(e) <==> lowered_list(
                *self,
            ).contains(e) by {
                lemma_lowered_list_contains(*self, e);
            }
            assert forall|x: usize, y: usize|
                x < n && y < n implies ((#[trigger] lm@[x as int]@[y as int]) <==> reaches(
                lowered_list(*self),
                x,
                y,
            )) by {
                if lm@[x as int]@[y as int] {
                    lemma_reaches_same(lowered@, lowered_list(*self), x, y);
                }
                if reaches(lowered_list(*self), x, y) {
                    lemma_reaches_same(lowered_list(*self), lowered@, x, y);
                }
            }
        }
        match find_self_reach(&lm, n) {
            Some(i) => {
                proof {
                    assert(self.lowered_cyclic());
                }
                return Err(ScheduleBuildError::DependencyCycle);
            },
            None => {
                proof {
                    assert(!self.lowered_cyclic()) by {
                        if self.lowered_cyclic() {
                            let i = choose|i: usize|
                                i < self.node_count() && reaches(lowered_list(*self), i, i);
                            assert(lm@[i as int]@[i as int]);
                        }
                    }
                }
            },
        }
        // Unresolved ambiguities.
        let strict_ambiguity = match self.settings.ambiguity_detection {
            LogLevel::Error => true,
            _ => false,
        };
        proof {
            assert(strict_ambiguity == (self.settings.ambiguity_detection == LogLevel::Error));
        }
        if strict_ambiguity {
            if self.check_ambiguity(n, &hm, &lm) {
                return Err(ScheduleBuildError::Ambiguity);
            }
        } else {
        }
        proof {
            assert(self.buildable());
            assert forall|i: usize| i < n implies !#[trigger] reaches(
                lowered_list(*self),
                i,
                i,
            ) by {
                if reaches(lowered_list(*self), i, i) {
                    assert(lm@[i as int]@[i as int]);
                }
            }
        }
        let built = self.build_plan_inner(n, &hm, &lm, &lowered);
        let ghost before_plan = *self;
        self.plan = Some(built);
        proof {
            assert forall|i: int|
                0 <= i < before_plan.nodes@.len() implies nodes_similar(
                #[trigger] before_plan.nodes@[i],
                self.nodes@[i],
            ) by {
                assert(self.nodes@[i] == before_plan.nodes@[i]);
            }
            lemma_same_graph_plan(before_plan, *self);
        }
        Ok(())
    }

    /// Lowers the checked graph into an execution plan.
    #[verifier::loop_isolation(false)]
    #[verifier::rlimit(100)]
    fn build_plan_inner(
        &self,
        n: usize,
        hm: &Vec<Vec<bool>>,
        lm: &Vec<Vec<bool>>,
        lowered: &Vec<(usize, usize)>,
    ) -> (built: ExecutionPlan)
        requires
            n == self.node_count(),
            self.edges_wf(),
            crate::graph::is_square(hm@, n as nat),
            forall|x: usize, y: usize|
                x < n && y < n ==> ((#[trigger] hm@[x as int]@[y as int]) <==> reaches(
                    self.hierarchy@,
                    x,
                    y,
                )),
            crate::graph::is_square(lm@, n as nat),
            forall|x: usize, y: usize|
                x < n && y < n ==> ((#[trigger] lm@[x as int]@[y as int]) <==> reaches(
                    lowered_list(*self),
                    x,
                    y,
                )),
            forall|e: (usize, usize)|
                #[trigger] lowered@.contains(e) <==> e.0 < n && e.1 < n && self.lowered_edge(
                    e.0,
                    e.1,
                ),
            forall|kk: int|
                0 <= kk < lowered@.len() ==> (#[trigger] lowered@[kk]).0 < n && lowered@[kk].1 < n,
            forall|i: usize| i < n ==> !#[trigger] reaches(lowered_list(*self), i, i),
        ensures
            plan_matches(*self, built),
    {
        // Topological sort of the lowered relation; ties fall back to node
        // order, which is insertion order among the systems.
        let sorted = crate::graph::topo_sort(n, lowered);
        let (order_n, pos_n) = match sorted {
            Some(op) => op,
            None => {
                proof {
                    assert forall|e: (usize, usize)| lowered@.contains(e) <==> lowered_list(
                        *self,
                    ).contains(e) by {
                        lemma_lowered_list_contains(*self, e);
                    }
                    let i = choose|i: usize| i < n && reaches(lowered@, i, i);
                    lemma_reaches_same(lowered@, lowered_list(*self), i, i);
                    assert(false);
                }
                (Vec::new(), Vec::new())
            },
        };
        // Keep only the system nodes, in sorted order.
        let mut order: Vec<usize> = Vec::new();
        let mut pos: Vec<usize> = Vec::new();
        let mut ii: usize = 0;
        while ii < n
            invariant
                ii <= n,
                pos@.len() == ii,
            decreases n - ii,
        {
            pos.push(0);
            ii = ii + 1;
        }
        let mut q: usize = 0;
        while q < n
            invariant
                q <= n,
                pos@.len() == n,
                crate::graph::topo_valid(n as nat, lowered@, order_n@, pos_n@),
                forall|rr: int|
                    0 <= rr < order@.len() ==> (#[trigger] order@[rr]) < n && self.is_system_node(
                        order@[rr] as int,
                    ) && pos@[order@[rr] as int] == rr && pos_n@[order@[rr] as int] < q,
                forall|i: usize|
                    i < n && self.is_system_node(i as int) && pos_n@[i as int] < q ==> (
                    #[trigger] pos@[i as int]) < order@.len() && order@[pos@[i as int] as int] == i,
                forall|r1: int, r2: int|
                    0 <= r1 < r2 < order@.len() ==> pos_n@[(#[trigger] order@[r1]) as int] < pos_n@[(
                    #[trigger] order@[r2]) as int],
            decreases n - q,
        {
            let node = order_n[q];
            if self.is_sys(node) {
                let mpos = order.len();
                pos[node] = mpos;
                order.push(node);
            }
            q = q + 1;
        }
        let m = order.len();
        proof {
            assert forall|qx: int, i: usize|
                0 <= qx < order@.len() && self.is_system_node(i as int) && i
                    < order@[qx] implies #[trigger] stable_choice(*self, order@, qx, i) by {
                let node = order@[qx];
                let t = pos_n@[node as int] as int;
                assert(node < n && pos_n@[node as int] < n && order_n@[t] == node);
                assert(crate::graph::greedy_ok(order_n@, lowered@, t, i));
                if crate::graph::placed_before(order_n@, t, i) {
                    let r = choose|r: int| 0 <= r < t && order_n@[r] == i;
                    assert(pos_n@[i as int] == r);
                    let pi = pos@[i as int] as int;
                    assert(pi < order@.len() && order@[pi] == i);
                    if qx < pi {
                        assert(pos_n@[(order@[qx]) as int] < pos_n@[(order@[pi]) as int]);
                        assert(false);
                    } else if pi == qx {
                        assert(false);
                    }
                    assert(0 <= pi < qx && order@[pi] == i);
                    assert(sys_placed_before(order@, qx, i));
                } else {
                    let k = choose|k: int|
                        0 <= k < lowered@.len() && (#[trigger] lowered@[k]).1 == i
                            && !crate::graph::placed_before(order_n@, t, lowered@[k].0);
                    let s = lowered@[k].0;
                    assert(lowered@.contains(lowered@[k]));
                    assert(self.lowered_edge(s, i));
                    assert(!sys_placed_before(order@, qx, s)) by {
                        if sys_placed_before(order@, qx, s) {
                            let r2 = choose|r2: int| 0 <= r2 < qx && order@[r2] == s;
                            assert(pos_n@[(order@[r2]) as int] < pos_n@[(order@[qx]) as int]);
                            assert(crate::graph::placed_before(order_n@, t, s)) by {
                                let rs = pos_n@[s as int] as int;
                                assert(0 <= rs < t && order_n@[rs] == s);
                            }
                            assert(false);
                        }
                    }
                    assert(stable_choice(*self, order@, qx, i));
                }
            }
        }
        // The direct lowered edges, the conflict relation, and the exclusive
        // flags in position space.
        let mut dep: Vec<Vec<bool>> = Vec::new();
        let mut qq: usize = 0;
        while qq < m
            invariant
                qq <= m,
                m == order@.len(),
                forall|rr: int| 0 <= rr < m ==> (#[trigger] order@[rr]) < n,
                dep@.len() == qq,
                forall|q2: int| 0 <= q2 < qq ==> (#[trigger] dep@[q2])@.len() == m,
                forall|q2: int, r2: int|
                    0 <= q2 < qq && 0 <= r2 < m ==> ((#[trigger] dep@[q2]@[r2])
                        == self.lowered_edge(order@[r2], order@[q2])),
                crate::graph::is_square(hm@, self.node_count()),
                forall|x: usize, y: usize|
                    x < self.node_count() && y < self.node_count() ==> ((#[trigger] hm@[x as int]@[y
                        as int]) <==> reaches(self.hierarchy@, x, y)),
            decreases m - qq,
        {
            let mut row: Vec<bool> = Vec::new();
            let mut rr: usize = 0;
            while rr < m
                invariant
                    qq < m,
                    rr <= m,
                    m == order@.len(),
                    forall|r2: int| 0 <= r2 < m ==> (#[trigger] order@[r2]) < n,
                    row@.len() == rr,
                    forall|r2: int|
                        0 <= r2 < rr ==> ((#[trigger] row@[r2]) == self.lowered_edge(
                            order@[r2],
                            order@[qq as int],
                        )),
                    crate::graph::is_square(hm@, self.node_count()),
                    forall|x: usize, y: usize|
                        x < self.node_count() && y < self.node_count() ==> ((#[trigger] hm@[x
                            as int]@[y as int]) <==> reaches(self.hierarchy@, x, y)),
                decreases m - rr,
            {
                row.push(self.is_lowered_edge(&hm, order[rr], order[qq]));
                rr = rr + 1;
            }
            dep.push(row);
            qq = qq + 1;
        }
        let mut conflict_m: Vec<Vec<bool>> = Vec::new();
        let mut qq: usize = 0;
        while qq < m
            invariant
                qq <= m,
                m == order@.len(),
                forall|rr: int|
                    0 <= rr < m ==> (#[trigger] order@[rr]) < n && self.is_system_node(
                        order@[rr] as int,
                    ),
                conflict_m@.len() == qq,
                forall|q2: int| 0 <= q2 < qq ==> (#[trigger] conflict_m@[q2])@.len() == m,
                forall|q2: int, r2: int|
                    0 <= q2 < qq && 0 <= r2 < m ==> ((#[trigger] conflict_m@[q2]@[r2]) == (q2 != r2
                        && self.unordered(order@[q2], order@[r2]) && accesses_conflict(
                        self.sys_node(order@[q2] as int).desc,
                        self.sys_node(order@[r2] as int).desc,
                    ))),
                crate::graph::is_square(lm@, n as nat),
                forall|x: usize, y: usize|
                    x < n && y < n ==> ((#[trigger] lm@[x as int]@[y as int]) <==> reaches(
                        lowered_list(*self),
                        x,
                        y,
                    )),
            decreases m - qq,
        {
            let mut row: Vec<bool> = Vec::new();
            let mut rr: usize = 0;
            while rr < m
                invariant
                    qq < m,
                    rr <= m,
                    m == order@.len(),
                    forall|r2: int|
                        0 <= r2 < m ==> (#[trigger] order@[r2]) < n && self.is_system_node(
                            order@[r2] as int,
                        ),
                    row@.len() == rr,
                    forall|r2: int|
                        0 <= r2 < rr ==> ((#[trigger] row@[r2]) == (qq as int != r2
                            && self.unordered(order@[qq as int], order@[r2]) && accesses_conflict(
                            self.sys_node(order@[qq as int] as int).desc,
                            self.sys_node(order@[r2] as int).desc,
                        ))),
                    crate::graph::is_square(lm@, n as nat),
                    forall|x: usize, y: usize|
                        x < n && y < n ==> ((#[trigger] lm@[x as int]@[y as int]) <==> reaches(
                            lowered_list(*self),
                            x,
                            y,
                        )),
                decreases m - rr,
            {
                let oq = order[qq];
                let or = order[rr];
                let val = qq != rr && !lm[oq][or] && !lm[or][oq] && self.descs_conflict(oq, or);
                row.push(val);
                rr = rr + 1;
            }
            conflict_m.push(row);
            qq = qq + 1;
        }
        let mut exclusive: Vec<bool> = Vec::new();
        let mut qq: usize = 0;
        while qq < m
            invariant
                qq <= m,
                m == order@.len(),
                forall|rr: int|
                    0 <= rr < m ==> (#[trigger] order@[rr]) < n && self.is_system_node(
                        order@[rr] as int,
                    ),
                exclusive@.len() == qq,
                forall|q2: int|
                    0 <= q2 < qq ==> ((#[trigger] exclusive@[q2]) == self.sys_node(
                        order@[q2] as int,
                    ).desc.exclusive),
            decreases m - qq,
        {
            let flag = match &self.nodes[order[qq]] {
                crate::schedule::NodeEntry::System(sn) => sn.desc.exclusive,
                crate::schedule::NodeEntry::SystemSet(_) => {
                    proof {
                        assert(false);
                    }
                    false
                },
            };
            exclusive.push(flag);
            qq = qq + 1;
        }
        // The ancestor sets with conditions gating each position, in
        // ascending slot order.
        let mut cond_sets: Vec<Vec<usize>> = Vec::new();
        let mut qq: usize = 0;
        while qq < m
            invariant
                qq <= m,
                m == order@.len(),
                forall|rr: int| 0 <= rr < m ==> (#[trigger] order@[rr]) < n,
                cond_sets@.len() == qq,
                forall|q2: int, jx: int|
                    0 <= q2 < qq && 0 <= jx < (#[trigger] cond_sets@[q2])@.len() ==> (
                    #[trigger] cond_sets@[q2]@[jx]) < n,
                forall|q2: int, u: usize|
                    0 <= q2 < qq ==> ((#[trigger] cond_sets@[q2]@.contains(u)) <==> (
                    self.is_set_node(u as int) && self.set_entry(u as int).conditions@.len() > 0
                        && reaches(self.hierarchy@, order@[q2], u))),
                forall|q2: int, j1: int, j2: int|
                    0 <= q2 < qq && 0 <= j1 < j2 < cond_sets@[q2]@.len() ==> (
                    #[trigger] cond_sets@[q2]@[j1]) < (#[trigger] cond_sets@[q2]@[j2]),
                crate::graph::is_square(hm@, self.node_count()),
                forall|x: usize, y: usize|
                    x < self.node_count() && y < self.node_count() ==> ((#[trigger] hm@[x as int]@[y
                        as int]) <==> reaches(self.hierarchy@, x, y)),
            decreases m - qq,
        {
            let mut row: Vec<usize> = Vec::new();
            let mut sig: usize = 0;
            while sig < n
                invariant
                    qq < m,
                    m == order@.len(),
                    forall|rr: int| 0 <= rr < m ==> (#[trigger] order@[rr]) < n,
                    sig <= n,
                    forall|jx: int| 0 <= jx < row@.len() ==> (#[trigger] row@[jx]) < sig,
                    forall|u: usize|
                        #[trigger] row@.contains(u) <==> (u < sig && self.is_set_node(u as int)
                            && self.set_entry(u as int).conditions@.len() > 0 && reaches(
                            self.hierarchy@,
                            order@[qq as int],
                            u,
                        )),
                    forall|j1: int, j2: int|
                        0 <= j1 < j2 < row@.len() ==> (#[trigger] row@[j1]) < (
                        #[trigger] row@[j2]),
                    crate::graph::is_square(hm@, self.node_count()),
                    forall|x: usize, y: usize|
                        x < self.node_count() && y < self.node_count() ==> ((#[trigger] hm@[x
                            as int]@[y as int]) <==> reaches(self.hierarchy@, x, y)),
                decreases n - sig,
            {
                let gated = match &self.nodes[sig] {
                    crate::schedule::NodeEntry::SystemSet(entry) => entry.conditions.len() > 0,
                    crate::schedule::NodeEntry::System(_) => false,
                };
                if gated && hm[order[qq]][sig] {
                    let ghost before = row@;
                    row.push(sig);
                    proof {
                        assert forall|u: usize| #[trigger] row@.contains(u) <==> (before.contains(
                            u,
                        ) || u == sig) by {
                            if row@.contains(u) {
                                let kk = choose|kk: int| 0 <= kk < row@.len() && row@[kk] == u;
                                if kk < before.len() {
                                    assert(before[kk] == u);
                                }
                            }
                            if before.contains(u) {
                                let kk = choose|kk: int|
                                    0 <= kk < before.len() && before[kk] == u;
                                assert(row@[kk] == u);
                            }
                            assert(row@[row@.len() - 1] == sig);
                        }
                    }
                }
                sig = sig + 1;
            }
            cond_sets.push(row);
            qq = qq + 1;
        }
        let built = ExecutionPlan { order, pos, dep, conflict: conflict_m, exclusive, cond_sets };
        proof {
            assert(plan_matches(*self, built)) by {
                assert forall|st: usize, tt: usize|
                    #[trigger] self.lowered_edge(st, tt) && self.is_system_node(st as int)
                        && self.is_system_node(tt as int) implies built.pos@[st as int]
                    < built.pos@[tt as int] by {
                    assert(st < n && tt < n);
                    assert(lowered@.contains((st, tt)));
                    let kk = choose|kk: int| 0 <= kk < lowered@.len() && lowered@[kk] == (st, tt);
                    assert(pos_n@[(st as int)] < pos_n@[(tt as int)]);
                    let r1 = built.pos@[st as int];
                    let r2 = built.pos@[tt as int];
                    assert(built.order@[r1 as int] == st && built.order@[r2 as int] == tt);
                    if r1 as int == r2 as int {
                        assert(st == tt);
                        assert(false);
                    } else if r1 > r2 {
                        assert(pos_n@[built.order@[r2 as int] as int] < pos_n@[built.order@[r1
                            as int] as int]);
                        assert(false);
                    }
                }
                assert forall|q2: int, j1: int, j2: int|
                    0 <= q2 < built.order@.len() && 0 <= j1 < built.cond_sets@[q2]@.len() && 0
                        <= j2 < built.cond_sets@[q2]@.len() && j1 != j2 implies (
                #[trigger] built.cond_sets@[q2]@[j1]) != (#[trigger] built.cond_sets@[q2]@[j2]) by {
                    if j1 < j2 {
                        assert(built.cond_sets@[q2]@[j1] < built.cond_sets@[q2]@[j2]);
                    } else {
                        assert(built.cond_sets@[q2]@[j2] < built.cond_sets@[q2]@[j1]);
                    }
                }
            }
        }
        built
    }

    /// The public identity of a slot, decided.
    fn id_of_exec(&self, i: usize) -> (r: NodeId)
        requires
            i < self.nodes@.len(),
        ensures
            r == self.id_of(i),
    {
        if self.is_sys(i) {
            NodeId::System(i)
        } else {
            NodeId::SystemSet(i)
        }
    }

    /// Decides the access conflict between two system slots.
    fn descs_conflict(&self, s: usize, t: usize) -> (r: bool)
        requires
            self.is_system_node(s as int),
            self.is_system_node(t as int),
        ensures
            r == accesses_conflict(self.sys_node(s as int).desc, self.sys_node(t as int).desc),
    {
        match (&self.nodes[s], &self.nodes[t]) {
            (crate::schedule::NodeEntry::System(sa), crate::schedule::NodeEntry::System(sb)) => {
                crate::system::conflict(&sa.desc, &sb.desc)
            },
            _ => {
                proof {
                    assert(false);
                }
                false
            },
        }
    }
}

/// Filtering with pointwise-equal predicates gives the same sequence.
proof fn lemma_filter_congruent<A>(s: Seq<A>, p1: spec_fn(A) -> bool, p2: spec_fn(A) -> bool)
    requires
        forall|x: A| #[trigger] p1(x) == p2(x),
    ensures
        s.filter(p1) == s.filter(p2),
    decreases s.len(),
{
    reveal(Seq::filter);
    if s.len() > 0 {
        lemma_filter_congruent(s.drop_last(), p1, p2);
        assert(p1(s.last()) == p2(s.last()));
    }
}

/// Two arena slots that carry the same structure: the same variant, the
/// same system description, the same set identity, and conditions in equal
/// number. Everything the build conditions read is preserved.
pub open spec fn nodes_similar(a: NodeEntry, b: NodeEntry) -> bool {
    match (a, b) {
        (NodeEntry::System(x), NodeEntry::System(y)) => x.desc == y.desc && x.conditions@.len()
            == y.conditions@.len(),
        (NodeEntry::SystemSet(x), NodeEntry::SystemSet(y)) => x.kind == y.kind && x.conditions@.len()
            == y.conditions@.len(),
        _ => false,
    }
}

/// Neither caching the plan nor advancing condition state changes anything
/// the build conditions or the plan validity depend on.
#[verifier::rlimit(100)]
pub proof fn lemma_same_graph_plan(c1: Schedule, c2: Schedule)
    requires
        c1.nodes@.len() == c2.nodes@.len(),
        forall|i: int|
            0 <= i < c1.nodes@.len() ==> nodes_similar(
                #[trigger] c1.nodes@[i],
                c2.nodes@[i],
            ),
        c1.hierarchy == c2.hierarchy,
        c1.dependency == c2.dependency,
        c1.ambiguities == c2.ambiguities,
        c1.settings == c2.settings,
        c1.buildable(),
        (c2.plan matches Some(p) && plan_matches(c1, p)),
        c1.edges_wf(),
        c1.sets_unique(),
    ensures
        c2.wf(),
{
    assert forall|i: int|
        0 <= i < c1.nodes@.len() implies c1.is_system_node(i) == c2.is_system_node(i) && (
    c1.is_system_node(i) ==> c1.sys_node(i).desc == c2.sys_node(i).desc) && (c1.is_set_node(i)
        ==> c1.set_entry(i).kind == c2.set_entry(i).kind && c1.set_entry(i).conditions@.len()
        == c2.set_entry(i).conditions@.len()) by {
        assert(nodes_similar(c1.nodes@[i], c2.nodes@[i]));
    }
    assert(c2.edges_wf());
    assert(c2.sets_unique()) by {
        assert forall|j1: int, j2: int|
            0 <= j1 < c2.nodes@.len() && 0 <= j2 < c2.nodes@.len() && j1 != j2 && (
        #[trigger] c2.nodes@[j1]) is SystemSet && (#[trigger] c2.nodes@[j2])
            is SystemSet implies !crate::schedule::identities_clash(
            c2.nodes@[j1]->SystemSet_0.kind,
            c2.nodes@[j2]->SystemSet_0.kind,
        ) by {
            assert(nodes_similar(c1.nodes@[j1], c2.nodes@[j1]));
            assert(nodes_similar(c1.nodes@[j2], c2.nodes@[j2]));
        }
    }
    assert forall|s: usize, t: usize| #[trigger] c1.lowered_edge(s, t) == c2.lowered_edge(
        s,
        t,
    ) by {
        if c1.lowered_edge(s, t) {
            let k = choose|k: int|
                0 <= k < c1.dependency@.len() && c1.covers(
                    (#[trigger] c1.dependency@[k]).0,
                    s,
                ) && c1.covers(c1.dependency@[k].1, t);
            assert(c2.covers(c2.dependency@[k].0, s) && c2.covers(c2.dependency@[k].1, t));
        }
        if c2.lowered_edge(s, t) {
            let k = choose|k: int|
                0 <= k < c2.dependency@.len() && c2.covers(
                    (#[trigger] c2.dependency@[k]).0,
                    s,
                ) && c2.covers(c2.dependency@[k].1, t);
            assert(c1.covers(c1.dependency@[k].0, s) && c1.covers(c1.dependency@[k].1, t));
        }
    }
    assert forall|i: int|
        0 <= i < c1.nodes@.len() && c1.is_system_node(i) implies #[trigger] c2.sys_node(
        i,
    ).desc == c1.sys_node(i).desc by {
        assert(nodes_similar(c1.nodes@[i], c2.nodes@[i]));
    }
    assert(lowered_list(c1) == lowered_list(c2)) by {
        lemma_filter_congruent(
            all_pairs(c1.node_count()),
            |e: (usize, usize)| c1.lowered_edge(e.0, e.1),
            |e: (usize, usize)| c2.lowered_edge(e.0, e.1),
        );
    }
    assert forall|s: usize, t: usize| #[trigger] c1.whitelisted(s, t) == c2.whitelisted(s, t) by {
        if c1.whitelisted(s, t) {
            let k = choose|k: int|
                0 <= k < c1.ambiguities@.len() && ((c1.covers(
                    (#[trigger] c1.ambiguities@[k]).0,
                    s,
                ) && c1.covers(c1.ambiguities@[k].1, t)) || (c1.covers(c1.ambiguities@[k].0, t)
                    && c1.covers(c1.ambiguities@[k].1, s)));
        }
        if c2.whitelisted(s, t) {
            let k = choose|k: int|
                0 <= k < c2.ambiguities@.len() && ((c2.covers(
                    (#[trigger] c2.ambiguities@[k]).0,
                    s,
                ) && c2.covers(c2.ambiguities@[k].1, t)) || (c2.covers(c2.ambiguities@[k].0, t)
                    && c2.covers(c2.ambiguities@[k].1, s)));
        }
    }
    assert forall|st: usize, tt: usize| #[trigger] c1.unordered(st, tt) == c2.unordered(
        st,
        tt,
    ) by {}
    let p = c2.plan->Some_0;
    let m = p.order@.len();
    assert(plan_matches(c2, p)) by {
        assert forall|q: int| 0 <= q < m implies c2.is_system_node(
            (#[trigger] p.order@[q]) as int,
        ) by {
            assert(c1.is_system_node(p.order@[q] as int));
        }
        assert forall|i: usize|
            c2.is_system_node(i as int) implies (#[trigger] p.pos@[i as int]) < m && p.order@[
        p.pos@[i as int] as int] == i by {
            assert(c1.is_system_node(i as int));
        }
        assert forall|st: usize, tt: usize|
            #[trigger] c2.lowered_edge(st, tt) && c2.is_system_node(st as int)
                && c2.is_system_node(tt as int) implies p.pos@[st as int] < p.pos@[tt as int] by {
            assert(c1.lowered_edge(st, tt));
            assert(c1.is_system_node(st as int) && c1.is_system_node(tt as int));
        }
        assert forall|q: int, r: int|
            0 <= q < m && 0 <= r < m implies ((#[trigger] p.dep@[q]@[r]) <==> c2.lowered_edge(
            p.order@[r],
            p.order@[q],
        )) by {
            assert(p.dep@[q]@[r] <==> c1.lowered_edge(p.order@[r], p.order@[q]));
        }
        assert forall|q: int, r: int|
            0 <= q < m && 0 <= r < m implies ((#[trigger] p.conflict@[q]@[r]) <==> q != r
            && c2.unordered(p.order@[q], p.order@[r]) && accesses_conflict(
            c2.sys_node(p.order@[q] as int).desc,
            c2.sys_node(p.order@[r] as int).desc,
        )) by {
            assert(p.conflict@[q]@[r] <==> q != r && c1.unordered(p.order@[q], p.order@[r])
                && accesses_conflict(
                c1.sys_node(p.order@[q] as int).desc,
                c1.sys_node(p.order@[r] as int).desc,
            ));
            assert(c2.sys_node(p.order@[q] as int).desc == c1.sys_node(p.order@[q] as int).desc);
            assert(c2.sys_node(p.order@[r] as int).desc == c1.sys_node(p.order@[r] as int).desc);
        }
        assert forall|q: int| 0 <= q < m implies ((#[trigger] p.exclusive@[q]) == c2.sys_node(
            p.order@[q] as int,
        ).desc.exclusive) by {
            assert(p.exclusive@[q] == c1.sys_node(p.order@[q] as int).desc.exclusive);
            assert(c2.sys_node(p.order@[q] as int).desc == c1.sys_node(p.order@[q] as int).desc);
        }
        assert forall|q: int, u: usize|
            0 <= q < m implies ((#[trigger] p.cond_sets@[q]@.contains(u)) <==> c2.is_set_node(
            u as int,
        ) && c2.set_entry(u as int).conditions@.len() > 0 && reaches(
            c2.hierarchy@,
            p.order@[q],
            u,
        )) by {
            assert(p.cond_sets@[q]@.contains(u) <==> c1.is_set_node(u as int) && c1.set_entry(
                u as int,
            ).conditions@.len() > 0 && reaches(c1.hierarchy@, p.order@[q], u));
            if u < c1.nodes@.len() {
                assert(nodes_similar(c1.nodes@[u as int], c2.nodes@[u as int]));
            }
        }
        assert forall|q: int, i: usize|
            0 <= q < m && c2.is_system_node(i as int) && i
                < p.order@[q] implies #[trigger] stable_choice(c2, p.order@, q, i) by {
            assert(c1.is_system_node(i as int));
            assert(stable_choice(c1, p.order@, q, i));
            if !sys_placed_before(p.order@, q, i) {
                let s = choose|s: usize|
                    #[trigger] c1.lowered_edge(s, i) && !sys_placed_before(p.order@, q, s);
                assert(c2.lowered_edge(s, i));
            }
        }
    }
    lemma_similar_buildable(c1, c2);

}

/// The build conditions only read what similar arenas share.
#[verifier::rlimit(100)]
#[verifier::spinoff_prover]
pub proof fn lemma_similar_buildable(c1: Schedule, c2: Schedule)
    requires
        c1.nodes@.len() == c2.nodes@.len(),
        forall|i: int|
            0 <= i < c1.nodes@.len() ==> nodes_similar(#[trigger] c1.nodes@[i], c2.nodes@[i]),
        c1.hierarchy == c2.hierarchy,
        c1.dependency == c2.dependency,
        c1.ambiguities == c2.ambiguities,
        c1.settings == c2.settings,
        c1.buildable(),
    ensures
        c2.buildable(),
{
    assert forall|i: int|
        0 <= i < c1.nodes@.len() implies c1.is_system_node(i) == c2.is_system_node(i) && (
    c1.is_system_node(i) ==> c1.sys_node(i).desc == c2.sys_node(i).desc) && (c1.is_set_node(i)
        ==> c1.set_entry(i).kind == c2.set_entry(i).kind && c1.set_entry(i).conditions@.len()
        == c2.set_entry(i).conditions@.len()) by {
        assert(nodes_similar(c1.nodes@[i], c2.nodes@[i]));
    }
    assert forall|st: usize, tt: usize| #[trigger] c1.lowered_edge(st, tt) == c2.lowered_edge(
        st,
        tt,
    ) by {
        if c1.lowered_edge(st, tt) {
            let k = choose|k: int|
                0 <= k < c1.dependency@.len() && c1.covers(
                    (#[trigger] c1.dependency@[k]).0,
                    st,
                ) && c1.covers(c1.dependency@[k].1, tt);
            assert(c2.covers(c2.dependency@[k].0, st) && c2.covers(c2.dependency@[k].1, tt));
        }
        if c2.lowered_edge(st, tt) {
            let k = choose|k: int|
                0 <= k < c2.dependency@.len() && c2.covers(
                    (#[trigger] c2.dependency@[k]).0,
                    st,
                ) && c2.covers(c2.dependency@[k].1, tt);
            assert(c1.covers(c1.dependency@[k].0, st) && c1.covers(c1.dependency@[k].1, tt));
        }
    }
    assert(lowered_list(c1) == lowered_list(c2)) by {
        lemma_filter_congruent(
            all_pairs(c1.node_count()),
            |e: (usize, usize)| c1.lowered_edge(e.0, e.1),
            |e: (usize, usize)| c2.lowered_edge(e.0, e.1),
        );
    }
    assert forall|st: usize, tt: usize| #[trigger] c1.whitelisted(st, tt) == c2.whitelisted(
        st,
        tt,
    ) by {
        if c1.whitelisted(st, tt) {
            let k = choose|k: int|
                0 <= k < c1.ambiguities@.len() && ((c1.covers(
                    (#[trigger] c1.ambiguities@[k]).0,
                    st,
                ) && c1.covers(c1.ambiguities@[k].1, tt)) || (c1.covers(c1.ambiguities@[k].0, tt)
                    && c1.covers(c1.ambiguities@[k].1, st)));
        }
        if c2.whitelisted(st, tt) {
            let k = choose|k: int|
                0 <= k < c2.ambiguities@.len() && ((c2.covers(
                    (#[trigger] c2.ambiguities@[k]).0,
                    st,
                ) && c2.covers(c2.ambiguities@[k].1, tt)) || (c2.covers(c2.ambiguities@[k].0, tt)
                    && c2.covers(c2.ambiguities@[k].1, st)));
        }
    }
    assert(c2.buildable()) by {
        assert(c2.hierarchy_cyclic() == c1.hierarchy_cyclic());
        assert(c2.hierarchy_redundant() == c1.hierarchy_redundant());
        assert(c2.dependency_cyclic() == c1.dependency_cyclic());
        assert(c2.has_cross_dependency() == c1.has_cross_dependency()) by {
            if c1.has_cross_dependency() {
                let k = choose|k: int|
                    0 <= k < c1.dependency@.len() && #[trigger] c1.cross_at(k);
                assert(c2.cross_at(k));
            }
            if c2.has_cross_dependency() {
                let k = choose|k: int|
                    0 <= k < c2.dependency@.len() && #[trigger] c2.cross_at(k);
                assert(c1.cross_at(k));
            }
        }
        assert(c2.has_order_intersect() == c1.has_order_intersect()) by {
            if c1.has_order_intersect() {
                let (aa, bb, ss) = choose|aa: usize, bb: usize, ss: usize|
                    #[trigger] c1.intersect_witness(aa, bb, ss);
                assert(c2.intersect_witness(aa, bb, ss));
            }
            if c2.has_order_intersect() {
                let (aa, bb, ss) = choose|aa: usize, bb: usize, ss: usize|
                    #[trigger] c2.intersect_witness(aa, bb, ss);
                assert(c1.intersect_witness(aa, bb, ss));
            }
        }
        assert(c2.has_type_set_ambiguity() == c1.has_type_set_ambiguity()) by {
            assert forall|key: u64| #[trigger] c1.type_amb_witness(key) == c2.type_amb_witness(
                key,
            ) by {
                assert forall|u: usize| #[trigger] c1.ambiguous_type_set(u, key)
                    == c2.ambiguous_type_set(u, key) by {
                    if u < c1.nodes@.len() {
                        assert(nodes_similar(c1.nodes@[u as int], c2.nodes@[u as int]));
                    }
                    assert(c1.type_multiple(key) == c2.type_multiple(key)) by {
                        if c1.type_multiple(key) {
                            let (i1, i2) = choose|i1: int, i2: int|
                                i1 != i2 && c1.is_system_node(i1) && c1.is_system_node(i2) && (
                                #[trigger] c1.sys_node(i1)).desc.type_key == key && (
                                #[trigger] c1.sys_node(i2)).desc.type_key == key;
                            assert(c2.sys_node(i1).desc.type_key == key && c2.sys_node(
                                i2,
                            ).desc.type_key == key);
                        }
                        if c2.type_multiple(key) {
                            let (i1, i2) = choose|i1: int, i2: int|
                                i1 != i2 && c2.is_system_node(i1) && c2.is_system_node(i2) && (
                                #[trigger] c2.sys_node(i1)).desc.type_key == key && (
                                #[trigger] c2.sys_node(i2)).desc.type_key == key;
                            assert(c1.sys_node(i1).desc.type_key == key && c1.sys_node(
                                i2,
                            ).desc.type_key == key);
                        }
                    }
                }
                if c1.type_amb_witness(key) {
                    assert(c2.type_amb_witness(key));
                }
                if c2.type_amb_witness(key) {
                    assert(c1.type_amb_witness(key));
                }
            }
            if c1.has_type_set_ambiguity() {
                let key = choose|key: u64| c1.type_amb_witness(key);
                assert(c2.type_amb_witness(key));
            }
            if c2.has_type_set_ambiguity() {
                let key = choose|key: u64| c2.type_amb_witness(key);
                assert(c1.type_amb_witness(key));
                assert(c1.type_multiple(key) == c2.type_multiple(key)) by {
                    if c1.type_multiple(key) {
                        let (i1, i2) = choose|i1: int, i2: int|
                            i1 != i2 && c1.is_system_node(i1) && c1.is_system_node(i2) && (
                            #[trigger] c1.sys_node(i1)).desc.type_key == key && (
                            #[trigger] c1.sys_node(i2)).desc.type_key == key;
                        assert(c2.sys_node(i1).desc.type_key == key && c2.sys_node(
                            i2,
                        ).desc.type_key == key);
                    }
                    if c2.type_multiple(key) {
                        let (i1, i2) = choose|i1: int, i2: int|
                            i1 != i2 && c2.is_system_node(i1) && c2.is_system_node(i2) && (
                            #[trigger] c2.sys_node(i1)).desc.type_key == key && (
                            #[trigger] c2.sys_node(i2)).desc.type_key == key;
                        assert(c1.sys_node(i1).desc.type_key == key && c1.sys_node(
                            i2,
                        ).desc.type_key == key);
                    }
                }
            }
        }
        assert(c2.lowered_cyclic() == c1.lowered_cyclic());
        assert(c2.has_ambiguity() == c1.has_ambiguity()) by {
            assert forall|ss: usize, tt: usize| #[trigger] c1.ambiguous_pair(ss, tt)
                == c2.ambiguous_pair(ss, tt) by {
                if ss < c1.nodes@.len() && tt < c1.nodes@.len() {
                    assert(nodes_similar(c1.nodes@[ss as int], c2.nodes@[ss as int]));
                    assert(nodes_similar(c1.nodes@[tt as int], c2.nodes@[tt as int]));
                }
            }
            if c1.has_ambiguity() {
                let (ss, tt) = choose|ss: usize, tt: usize| #[trigger] c1.ambiguous_pair(ss, tt);
                assert(c2.ambiguous_pair(ss, tt));
            }
            if c2.has_ambiguity() {
                let (ss, tt) = choose|ss: usize, tt: usize| #[trigger] c2.ambiguous_pair(ss, tt);
                assert(c1.ambiguous_pair(ss, tt));
            }
        }
    }}

/// Topological soundness of the cached plan: along every path of the
/// lowered dependency relation, plan positions strictly rise, so everything
/// ordered before a system also stands before it in `order`.
pub proof fn lemma_plan_topological(c: Schedule, pth: Seq<usize>)
    requires
        c.wf(),
        (c.plan is Some),
        is_path(lowered_list(c), pth),
    ensures
        c.plan->Some_0.pos@[pth.first() as int] < c.plan->Some_0.pos@[pth.last() as int],
{
    let p = c.plan->Some_0;
    assert forall|k: int|
        0 <= k < lowered_list(c).len() implies p.pos@[(#[trigger] lowered_list(c)[k]).0 as int]
        < p.pos@[lowered_list(c)[k].1 as int] by {
        let e = lowered_list(c)[k];
        assert(lowered_list(c).contains(e));
        lemma_lowered_list_contains(c, e);
        assert(c.lowered_edge(e.0, e.1));
        assert(c.is_system_node(e.0 as int) && c.is_system_node(e.1 as int));
    }
    crate::graph::lemma_pos_rises_along_path(lowered_list(c), p.pos@, pth);
}

} // verus!
