//! Running the plan: condition evaluation with per-tick caching, and the
//! serial drive of one tick.
//!
//! Within one tick every run condition is invoked at most once: a system's
//! own conditions are invoked exactly once when its turn comes, and the
//! collective conditions of a set are invoked on first need and their verdict
//! cached for every later member. This is what keeps change detection sound:
//! each condition advances its observed tick exactly once per tick.

use vstd::prelude::*;
use crate::graph::reaches;
use crate::plan::{lemma_lowered_list_contains, lemma_same_graph_plan, lowered_list, nodes_similar, plan_matches};
use crate::schedule::{ExecutionPlan, NodeEntry, Schedule};
use crate::system::Condition;
use crate::world::World;

verus! {

/// The saturating successor used by the invocation counters.
pub open spec fn bump(x: u64) -> u64 {
    if x < u64::MAX {
        (x + 1) as u64
    } else {
        u64::MAX
    }
}

/// The run conditions an arena slot carries.
pub open spec fn entry_conditions(e: NodeEntry) -> Seq<Condition> {
    match e {
        NodeEntry::System(s) => s.conditions@,
        NodeEntry::SystemSet(s) => s.conditions@,
    }
}

/// Every condition of the list can be evaluated against the world.
pub open spec fn conds_valid_for(conds: Seq<Condition>, w: World) -> bool {
    forall|ci: int| 0 <= ci < conds.len() ==> (#[trigger] conds[ci]).valid_for(w)
}

/// Every condition of the list holds against the world, given its state.
pub open spec fn all_conditions_hold(conds: Seq<Condition>, w: World) -> bool {
    forall|ci: int| 0 <= ci < conds.len() ==> (#[trigger] conds[ci]).result_in(w)
}

/// The slot after one joint invocation of its conditions: everything else
/// preserved, every invocation counter bumped once.
pub open spec fn entry_advanced(a: NodeEntry, b: NodeEntry) -> bool {
    &&& nodes_similar(a, b)
    &&& forall|ci: int|
        0 <= ci < entry_conditions(a).len() ==> (#[trigger] entry_conditions(b)[ci]).kind
            == entry_conditions(a)[ci].kind && entry_conditions(b)[ci].invocations == bump(
            entry_conditions(a)[ci].invocations,
        )
}

/// The schedule can run against this world: every condition and every system
/// body finds its resources, with the right shapes.
pub open spec fn runnable(c: Schedule, w: World) -> bool {
    forall|i: int|
        0 <= i < c.nodes@.len() ==> conds_valid_for(
            entry_conditions(#[trigger] c.nodes@[i]),
            w,
        ) && (c.nodes@[i] is System ==> c.nodes@[i]->System_0.desc.action.valid_for(w))
}

/// The set `u` gates at least one system: it carries conditions and some
/// system sits inside it.
pub open spec fn set_gates(c: Schedule, u: usize) -> bool {
    &&& c.is_set_node(u as int)
    &&& c.set_entry(u as int).conditions@.len() > 0
    &&& exists|i: usize|
        c.is_system_node(i as int) && #[trigger] crate::graph::reaches(c.hierarchy@, i, u)
}

/// The cache of a tick that has evaluated nothing yet.
pub open spec fn empty_cache(n: nat) -> Seq<Option<bool>> {
    Seq::new(n, |k: int| None::<bool>)
}

/// The conjoined verdict of slot `i`'s conditions, taken in their pre-tick
/// states, against the world as it stands when they are first invoked.
pub open spec fn slot_verdict(nodes: Seq<NodeEntry>, i: int, w: World) -> bool {
    all_conditions_hold(entry_conditions(nodes[i]), w)
}

/// Folds the gating sets of position `q` from entry `j` on: each gating
/// set's verdict is taken from the cache, or computed against `w` on first
/// need and cached. Returns the final cache and the accumulated gate.
pub open spec fn gate_fold(
    nodes: Seq<NodeEntry>,
    p: ExecutionPlan,
    q: int,
    j: int,
    cache: Seq<Option<bool>>,
    w: World,
    acc: bool,
) -> (Seq<Option<bool>>, bool)
    decreases p.cond_sets@[q]@.len() - j,
{
    if j < 0 || j >= p.cond_sets@[q]@.len() {
        (cache, acc)
    } else {
        let u = p.cond_sets@[q]@[j] as int;
        match cache[u] {
            Some(b) => gate_fold(nodes, p, q, j + 1, cache, w, acc && b),
            None => {
                let b = slot_verdict(nodes, u, w);
                gate_fold(nodes, p, q, j + 1, cache.update(u, Some(b)), w, acc && b)
            },
        }
    }
}

/// What one tick does, position by position: starting at position `q` with
/// this cache against world `w_in`, the tick ends with world `w_out` and
/// cache `cache_out`. At each position the gating sets are folded (each
/// evaluated once per tick and cached), the system's own conditions are
/// evaluated, and the system's action is applied to the world exactly when
/// both gates held. `nodes` holds the pre-tick condition states.
pub open spec fn tick_from(
    nodes: Seq<NodeEntry>,
    p: ExecutionPlan,
    q: int,
    cache: Seq<Option<bool>>,
    w_in: World,
    w_out: World,
    cache_out: Seq<Option<bool>>,
) -> bool
    decreases p.order@.len() - q,
{
    if q < 0 || q >= p.order@.len() {
        w_out == w_in && cache_out == cache
    } else {
        let i = p.order@[q] as int;
        let folded = gate_fold(nodes, p, q, 0, cache, w_in, true);
        let own = slot_verdict(nodes, i, w_in);
        if folded.1 && own {
            exists|w_mid: World|
                #[trigger] nodes[i]->System_0.desc.action.applied(w_in, w_mid) && tick_from(
                    nodes,
                    p,
                    q + 1,
                    folded.0,
                    w_mid,
                    w_out,
                    cache_out,
                )
        } else {
            tick_from(nodes, p, q + 1, folded.0, w_in, w_out, cache_out)
        }
    }
}

/// A completed tick suffix extends one position backwards: processing
/// position `q` as the executor does and then finishing from `q + 1` is
/// finishing from `q`.
proof fn lemma_tick_step(
    nodes: Seq<NodeEntry>,
    p: ExecutionPlan,
    q: int,
    cache_q: Seq<Option<bool>>,
    w_q: World,
    cache1: Seq<Option<bool>>,
    gate: bool,
    own: bool,
    w1: World,
)
    requires
        0 <= q < p.order@.len(),
        gate_fold(nodes, p, q, 0, cache_q, w_q, true) == (cache1, gate),
        own == slot_verdict(nodes, p.order@[q] as int, w_q),
        gate && own ==> nodes[p.order@[q] as int]->System_0.desc.action.applied(w_q, w1),
        !(gate && own) ==> w1 == w_q,
    ensures
        forall|w_out: World, cache_out: Seq<Option<bool>>|
            #[trigger] tick_from(nodes, p, q + 1, cache1, w1, w_out, cache_out) ==> tick_from(
                nodes,
                p,
                q,
                cache_q,
                w_q,
                w_out,
                cache_out,
            ),
{
    assert forall|w_out: World, cache_out: Seq<Option<bool>>|
        #[trigger] tick_from(nodes, p, q + 1, cache1, w1, w_out, cache_out) implies tick_from(
        nodes,
        p,
        q,
        cache_q,
        w_q,
        w_out,
        cache_out,
    ) by {
        let i = p.order@[q] as int;
        if gate && own {
            assert(nodes[i]->System_0.desc.action.applied(w_q, w1) && tick_from(
                nodes,
                p,
                q + 1,
                cache1,
                w1,
                w_out,
                cache_out,
            ));
        }
    }
}

impl Schedule {
    /// Invokes every condition of slot `i` once, folding their verdicts.
    /// Returns the conjunction of what each condition observed.
    #[verifier::loop_isolation(false)]
    fn eval_conditions_at(&mut self, i: usize, w: &World) -> (r: bool)
        requires
            i < old(self).nodes@.len(),
            conds_valid_for(entry_conditions(old(self).nodes@[i as int]), *w),
        ensures
            final(self).nodes@.len() == old(self).nodes@.len(),
            forall|j: int|
                0 <= j < old(self).nodes@.len() && j != i ==> final(self).nodes@[j] == old(
                    self,
                ).nodes@[j],
            entry_advanced(old(self).nodes@[i as int], final(self).nodes@[i as int]),
            r == all_conditions_hold(entry_conditions(old(self).nodes@[i as int]), *w),
            final(self).hierarchy == old(self).hierarchy,
            final(self).dependency == old(self).dependency,
            final(self).ambiguities == old(self).ambiguities,
            final(self).settings == old(self).settings,
            final(self).plan == old(self).plan,
            final(self).cond_cache == old(self).cond_cache,
    {
        let ghost e0 = self.nodes@[i as int];
        let mut verdict = true;
        match &mut self.nodes[i] {
            NodeEntry::System(sn) => {
                let clen = sn.conditions.len();
                let mut ci: usize = 0;
                while ci < clen
                    invariant
                        clen == entry_conditions(e0).len(),
                        ci <= clen,
                        sn.conditions@.len() == clen,
                        sn.desc == e0->System_0.desc,
                        forall|cj: int|
                            ci <= cj < clen ==> (#[trigger] sn.conditions@[cj])
                                == entry_conditions(e0)[cj],
                        forall|cj: int|
                            0 <= cj < ci ==> (#[trigger] sn.conditions@[cj]).kind
                                == entry_conditions(e0)[cj].kind && sn.conditions@[cj].invocations
                                == bump(entry_conditions(e0)[cj].invocations),
                        verdict <==> (forall|cj: int|
                            0 <= cj < ci ==> (#[trigger] entry_conditions(e0)[cj]).result_in(*w)),
                        conds_valid_for(entry_conditions(e0), *w),
                    decreases clen - ci,
                {
                    let ghost was = verdict;
                    let v = sn.conditions[ci].evaluate(w);
                    verdict = verdict && v;
                    proof {
                        if was && v {
                            assert forall|cj: int|
                                0 <= cj < ci + 1 implies (#[trigger] entry_conditions(
                                e0,
                            )[cj]).result_in(*w) by {}
                        } else if !was {
                            let cj = choose|cj: int|
                                0 <= cj < ci && !(#[trigger] entry_conditions(e0)[cj]).result_in(
                                    *w,
                                );
                            assert(!entry_conditions(e0)[cj].result_in(*w));
                        } else {
                            assert(!entry_conditions(e0)[ci as int].result_in(*w));
                        }
                    }
                    ci = ci + 1;
                }
            },
            NodeEntry::SystemSet(se) => {
                let clen = se.conditions.len();
                let mut ci: usize = 0;
                while ci < clen
                    invariant
                        clen == entry_conditions(e0).len(),
                        ci <= clen,
                        se.conditions@.len() == clen,
                        se.kind == e0->SystemSet_0.kind,
                        forall|cj: int|
                            ci <= cj < clen ==> (#[trigger] se.conditions@[cj])
                                == entry_conditions(e0)[cj],
                        forall|cj: int|
                            0 <= cj < ci ==> (#[trigger] se.conditions@[cj]).kind
                                == entry_conditions(e0)[cj].kind && se.conditions@[cj].invocations
                                == bump(entry_conditions(e0)[cj].invocations),
                        verdict <==> (forall|cj: int|
                            0 <= cj < ci ==> (#[trigger] entry_conditions(e0)[cj]).result_in(*w)),
                        conds_valid_for(entry_conditions(e0), *w),
                    decreases clen - ci,
                {
                    let ghost was = verdict;
                    let v = se.conditions[ci].evaluate(w);
                    verdict = verdict && v;
                    proof {
                        if was && v {
                            assert forall|cj: int|
                                0 <= cj < ci + 1 implies (#[trigger] entry_conditions(
                                e0,
                            )[cj]).result_in(*w) by {}
                        } else if !was {
                            let cj = choose|cj: int|
                                0 <= cj < ci && !(#[trigger] entry_conditions(e0)[cj]).result_in(
                                    *w,
                                );
                            assert(!entry_conditions(e0)[cj].result_in(*w));
                        } else {
                            assert(!entry_conditions(e0)[ci as int].result_in(*w));
                        }
                    }
                    ci = ci + 1;
                }
            },
        }
        verdict
    }
}

impl Schedule {
    /// Runs the plan once, rebuilding it first if a builder call invalidated
    /// it. Systems run in plan order; ancestor-set conditions are evaluated
    /// once on first need and cached for the whole tick, and a system's own
    /// conditions are evaluated exactly once when its turn comes. A system
    /// whose gate fails is skipped; its dependents still run.
    ///
    /// The condition cache of the tick stays readable until the next run
    /// begins.
    #[verifier::loop_isolation(false)]
    #[verifier::rlimit(100)]
    pub fn run(&mut self, world: &mut World)
        requires
            old(self).wf(),
            old(self).buildable(),
            runnable(*old(self), *old(world)),
            old(world).ticks_wf(),
        ensures
            final(self).wf(),
            final(world).ticks_wf(),
            crate::system::SystemAction::preserves_shape(*old(world), *final(world)),
            final(self).nodes@.len() == old(self).nodes@.len(),
            final(self).hierarchy == old(self).hierarchy,
            final(self).dependency == old(self).dependency,
            final(self).ambiguities == old(self).ambiguities,
            final(self).settings == old(self).settings,
            runnable(*final(self), *final(world)),
            // Each system's own conditions were invoked exactly once.
            forall|i: int|
                0 <= i < old(self).nodes@.len() && old(self).nodes@[i] is System
                    ==> entry_advanced(#[trigger] old(self).nodes@[i], final(self).nodes@[i]),
            // A set's conditions were invoked exactly once when the set gates
            // some system of the plan, and not at all otherwise.
            forall|u: int|
                0 <= u < old(self).nodes@.len() && old(self).nodes@[u] is SystemSet ==> (if set_gates(
                    *old(self),
                    u as usize,
                ) {
                    entry_advanced(#[trigger] old(self).nodes@[u], final(self).nodes@[u])
                } else {
                    final(self).nodes@[u] == old(self).nodes@[u]
                }),
            (final(self).plan is Some),
            // What the tick did to the world: starting from a fresh cache,
            // the world ends as the fold, in plan order, of the actions of
            // exactly those systems whose gates held, and the cache ends as
            // the tick left it.
            tick_from(
                old(self).nodes@,
                final(self).plan->Some_0,
                0,
                empty_cache(old(self).nodes@.len()),
                *old(world),
                *final(world),
                final(self).cond_cache@,
            ),
    {
        if self.plan.is_none() {
            let r = self.initialize();
            match r {
                Ok(_) => {},
                Err(_) => {
                    proof {
                        assert(false);
                    }
                },
            }
        }
        let ghost c0 = *self;
        let plan_opt = self.plan.take();
        let plan = match plan_opt {
            Some(p) => p,
            None => {
                proof {
                    assert(false);
                }
                ExecutionPlan {
                    order: Vec::new(),
                    pos: Vec::new(),
                    dep: Vec::new(),
                    conflict: Vec::new(),
                    exclusive: Vec::new(),
                    cond_sets: Vec::new(),
                }
            },
        };
        let ghost w0 = *world;
        // A fresh cache for this tick; the previous tick's verdicts stay
        // readable up to this point.
        let node_total = self.nodes.len();
        let mut cache: Vec<Option<bool>> = Vec::new();
        let mut ci: usize = 0;
        while ci < node_total
            invariant
                ci <= node_total,
                cache@.len() == ci,
                forall|u: int| 0 <= u < ci ==> (#[trigger] cache@[u]) is None,
            decreases node_total - ci,
        {
            cache.push(None);
            ci = ci + 1;
        }
        self.cond_cache = cache;
        let ghost cache0 = self.cond_cache@;
        proof {
            assert(cache0 =~= empty_cache(c0.nodes@.len()));
        }
        let m = plan.order.len();
        let mut q: usize = 0;
        while q < m
            invariant
            plan_matches(c0, plan),
            m == plan.order@.len(),
            self.nodes@.len() == c0.nodes@.len(),
            self.hierarchy == c0.hierarchy,
            self.dependency == c0.dependency,
            self.ambiguities == c0.ambiguities,
            self.settings == c0.settings,
            (self.plan is None),
            self.cond_cache@.len() == c0.nodes@.len(),
            world.ticks_wf(),
            crate::system::SystemAction::preserves_shape(w0, *world),
            runnable(*self, *world),
            forall|i: int|
                0 <= i < c0.nodes@.len() ==> entry_kinds_match(
                    #[trigger] c0.nodes@[i],
                    self.nodes@[i],
                ),
            forall|q2: int|
                q <= q2 < m ==> self.nodes@[(#[trigger] plan.order@[q2]) as int] == c0.nodes@[
                    plan.order@[q2] as int],
            forall|q2: int|
                0 <= q2 < q ==> entry_advanced(
                    c0.nodes@[(#[trigger] plan.order@[q2]) as int],
                    self.nodes@[plan.order@[q2] as int],
                ),
            forall|u: int|
                0 <= u < c0.nodes@.len() && c0.nodes@[u] is SystemSet ==> match self.cond_cache@[u] {
                    Some(_) => entry_advanced(#[trigger] c0.nodes@[u], self.nodes@[u]),
                    None => self.nodes@[u] == c0.nodes@[u],
                },
            forall|u: int|
                0 <= u < c0.nodes@.len() && (#[trigger] self.cond_cache@[u]) is Some ==> set_gates(
                    c0,
                    u as usize,
                ),
            forall|q2: int, u: usize|
                0 <= q2 < q && (#[trigger] plan.cond_sets@[q2]@.contains(u)) ==> (
                #[trigger] self.cond_cache@[u as int]) is Some,
            forall|w_out: World, cache_out: Seq<Option<bool>>|
                #[trigger] tick_from(
                    c0.nodes@,
                    plan,
                    q as int,
                    self.cond_cache@,
                    *world,
                    w_out,
                    cache_out,
                ) ==> tick_from(c0.nodes@, plan, 0, cache0, w0, w_out, cache_out),
            q <= m,
            decreases m - q,
        {
            let ghost cache_q = self.cond_cache@;
            let ghost w_q = *world;
            let sysid = plan.order[q];
            let mut gate = true;
            let row_len = plan.cond_sets[q].len();
            let mut ti: usize = 0;
            while ti < row_len
                invariant
            plan_matches(c0, plan),
            m == plan.order@.len(),
            self.nodes@.len() == c0.nodes@.len(),
            self.hierarchy == c0.hierarchy,
            self.dependency == c0.dependency,
            self.ambiguities == c0.ambiguities,
            self.settings == c0.settings,
            (self.plan is None),
            self.cond_cache@.len() == c0.nodes@.len(),
            world.ticks_wf(),
            crate::system::SystemAction::preserves_shape(w0, *world),
            runnable(*self, *world),
            forall|i: int|
                0 <= i < c0.nodes@.len() ==> entry_kinds_match(
                    #[trigger] c0.nodes@[i],
                    self.nodes@[i],
                ),
            forall|q2: int|
                q <= q2 < m ==> self.nodes@[(#[trigger] plan.order@[q2]) as int] == c0.nodes@[
                    plan.order@[q2] as int],
            forall|q2: int|
                0 <= q2 < q ==> entry_advanced(
                    c0.nodes@[(#[trigger] plan.order@[q2]) as int],
                    self.nodes@[plan.order@[q2] as int],
                ),
            forall|u: int|
                0 <= u < c0.nodes@.len() && c0.nodes@[u] is SystemSet ==> match self.cond_cache@[u] {
                    Some(_) => entry_advanced(#[trigger] c0.nodes@[u], self.nodes@[u]),
                    None => self.nodes@[u] == c0.nodes@[u],
                },
            forall|u: int|
                0 <= u < c0.nodes@.len() && (#[trigger] self.cond_cache@[u]) is Some ==> set_gates(
                    c0,
                    u as usize,
                ),
            forall|q2: int, u: usize|
                0 <= q2 < q && (#[trigger] plan.cond_sets@[q2]@.contains(u)) ==> (
                #[trigger] self.cond_cache@[u as int]) is Some,
                    q < m,
                    sysid == plan.order@[q as int],
                    row_len == plan.cond_sets@[q as int]@.len(),
                    ti <= row_len,
                    forall|t2: int|
                        0 <= t2 < ti ==> (#[trigger] self.cond_cache@[plan.cond_sets@[q as int]@[t2]
                            as int]) is Some,
                    *world == w_q,
                    gate_fold(c0.nodes@, plan, q as int, ti as int, self.cond_cache@, w_q, gate)
                        == gate_fold(c0.nodes@, plan, q as int, 0, cache_q, w_q, true),
                    forall|w_out: World, cache_out: Seq<Option<bool>>|
                        #[trigger] tick_from(c0.nodes@, plan, q as int, cache_q, w_q, w_out, cache_out)
                            ==> tick_from(c0.nodes@, plan, 0, cache0, w0, w_out, cache_out),
                decreases row_len - ti,
            {
                let sigma = plan.cond_sets[q][ti];
                proof {
                    assert(plan.cond_sets@[q as int]@.contains(sigma));
                }
                let ghost gate_was = gate;
                let ghost cache_was = self.cond_cache@;
                let cached = self.cond_cache[sigma];
                match cached {
                    Some(b) => {
                        gate = gate && b;
                        proof {
                            assert(gate_fold(
                                c0.nodes@,
                                plan,
                                q as int,
                                ti as int,
                                cache_was,
                                w_q,
                                gate_was,
                            ) == gate_fold(
                                c0.nodes@,
                                plan,
                                q as int,
                                ti + 1,
                                cache_was,
                                w_q,
                                gate_was && b,
                            ));
                        }
                    },
                    None => {
                        let ghost pre = *self;
                        let b = self.eval_conditions_at(sigma, world);
                        self.cond_cache[sigma] = Some(b);
                        gate = gate && b;
                        proof {
                            assert(entry_advanced(c0.nodes@[sigma as int], self.nodes@[sigma
                                as int]));
                            lemma_runnable_preserved(pre, *self, *world, *world);
                            assert(set_gates(c0, sigma)) by {
                                assert(c0.is_set_node(sigma as int) && c0.set_entry(
                                    sigma as int,
                                ).conditions@.len() > 0 && crate::graph::reaches(
                                    c0.hierarchy@,
                                    plan.order@[q as int],
                                    sigma,
                                ));
                                assert(c0.is_system_node(plan.order@[q as int] as int));
                            }
                            assert(pre.nodes@[sigma as int] == c0.nodes@[sigma as int]);
                            assert(b == slot_verdict(c0.nodes@, sigma as int, w_q));
                            assert(self.cond_cache@ == cache_was.update(sigma as int, Some(b)));
                            assert(gate_fold(
                                c0.nodes@,
                                plan,
                                q as int,
                                ti as int,
                                cache_was,
                                w_q,
                                gate_was,
                            ) == gate_fold(
                                c0.nodes@,
                                plan,
                                q as int,
                                ti + 1,
                                cache_was.update(sigma as int, Some(b)),
                                w_q,
                                gate_was && b,
                            ));
                        }
                    },
                }
                ti = ti + 1;
            }
            proof {
                assert(gate_fold(c0.nodes@, plan, q as int, row_len as int, self.cond_cache@, w_q, gate)
                    == (self.cond_cache@, gate));
            }
            let ghost cache1 = self.cond_cache@;
            let ghost pre_own = *self;
            let own = self.eval_conditions_at(sysid, world);
            proof {
                lemma_runnable_preserved(pre_own, *self, *world, *world);
                assert(entry_advanced(c0.nodes@[sysid as int], self.nodes@[sysid as int]));
                assert(pre_own.nodes@[sysid as int] == c0.nodes@[sysid as int]);
                assert(own == slot_verdict(c0.nodes@, sysid as int, w_q));
                assert forall|u: int|
                    0 <= u < c0.nodes@.len() && (#[trigger] self.cond_cache@[u])
                        is Some implies set_gates(c0, u as usize) by {
                    assert(pre_own.cond_cache@[u] is Some);
                }
                assert forall|u: int|
                    0 <= u < c0.nodes@.len() && c0.nodes@[u] is SystemSet implies match self
                    .cond_cache@[u] {
                    Some(_) => entry_advanced(#[trigger] c0.nodes@[u], self.nodes@[u]),
                    None => self.nodes@[u] == c0.nodes@[u],
                } by {
                    assert(u != sysid as int);
                    assert(self.nodes@[u] == pre_own.nodes@[u]);
                    assert(self.cond_cache@[u] == pre_own.cond_cache@[u]);
                }
            }
            if gate && own {
                let action = match &self.nodes[sysid] {
                    NodeEntry::System(sn) => sn.desc.action,
                    NodeEntry::SystemSet(_) => {
                        proof {
                            assert(false);
                        }
                        crate::system::SystemAction::Idle
                    },
                };
                proof {
                    assert(action == c0.nodes@[sysid as int]->System_0.desc.action);
                }
                let ghost w_pre = *world;
                action.apply(world);
                proof {
                    lemma_runnable_preserved(*self, *self, w_pre, *world);
                    crate::system::lemma_shape_trans(w0, w_pre, *world);
                    assert(w_pre == w_q);
                    assert(c0.nodes@[sysid as int]->System_0.desc.action.applied(w_q, *world));
                }
            }
            proof {
                lemma_tick_step(c0.nodes@, plan, q as int, cache_q, w_q, cache1, gate, own, *world);
                assert forall|w_out: World, cache_out: Seq<Option<bool>>|
                    #[trigger] tick_from(
                        c0.nodes@,
                        plan,
                        q + 1,
                        self.cond_cache@,
                        *world,
                        w_out,
                        cache_out,
                    ) implies tick_from(c0.nodes@, plan, 0, cache0, w0, w_out, cache_out) by {
                    assert(tick_from(c0.nodes@, plan, q + 1, cache1, *world, w_out, cache_out));
                    assert(tick_from(c0.nodes@, plan, q as int, cache_q, w_q, w_out, cache_out));
                }
            }
            q = q + 1;
        }
        proof {
            assert(tick_from(c0.nodes@, plan, m as int, self.cond_cache@, *world, *world,
                self.cond_cache@));
            assert(tick_from(c0.nodes@, plan, 0, cache0, w0, *world, self.cond_cache@));
        }
        self.plan = Some(plan);
        proof {
            assert forall|i: int|
                0 <= i < c0.nodes@.len() implies crate::plan::nodes_similar(
                #[trigger] c0.nodes@[i],
                self.nodes@[i],
            ) by {
                assert(entry_kinds_match(c0.nodes@[i], self.nodes@[i]));
            }
            lemma_same_graph_plan(c0, *self);
            assert forall|i: int|
                0 <= i < c0.nodes@.len() && c0.nodes@[i] is System implies entry_advanced(
                #[trigger] c0.nodes@[i],
                self.nodes@[i],
            ) by {
                assert(c0.is_system_node(i));
                let qi = plan.pos@[i];
                assert(plan.order@[qi as int] == i as usize);
                assert(entry_advanced(
                    c0.nodes@[plan.order@[qi as int] as int],
                    self.nodes@[plan.order@[qi as int] as int],
                ));
            }
            assert forall|u: int|
                0 <= u < c0.nodes@.len() && c0.nodes@[u] is SystemSet implies (if set_gates(
                c0,
                u as usize,
            ) {
                entry_advanced(#[trigger] c0.nodes@[u], self.nodes@[u])
            } else {
                self.nodes@[u] == c0.nodes@[u]
            }) by {
                if set_gates(c0, u as usize) {
                    let i = choose|i: usize|
                        c0.is_system_node(i as int) && #[trigger] crate::graph::reaches(
                            c0.hierarchy@,
                            i,
                            u as usize,
                        );
                    let qi = plan.pos@[i as int];
                    assert(plan.order@[qi as int] == i);
                    assert(plan.cond_sets@[qi as int]@.contains(u as usize));
                    assert(self.cond_cache@[u] is Some);
                } else {
                    assert(self.cond_cache@[u] is None);
                }
            }
        }
    }
}

/// The kinds a slot carries are preserved: same variant, same description or
/// identity, and conditions of the same kinds.
pub open spec fn entry_kinds_match(a: NodeEntry, b: NodeEntry) -> bool {
    &&& nodes_similar(a, b)
    &&& forall|ci: int|
        0 <= ci < entry_conditions(a).len() ==> (#[trigger] entry_conditions(b)[ci]).kind
            == entry_conditions(a)[ci].kind
}

/// Validity of conditions and actions only depends on the kinds carried and
/// on the world's shape, both of which the tick preserves.
proof fn lemma_runnable_preserved(c1: Schedule, c2: Schedule, w1: World, w2: World)
    requires
        runnable(c1, w1),
        crate::system::SystemAction::preserves_shape(w1, w2),
        c2.nodes@.len() == c1.nodes@.len(),
        forall|i: int|
            0 <= i < c1.nodes@.len() ==> entry_kinds_match(#[trigger] c1.nodes@[i], c2.nodes@[i]),
    ensures
        runnable(c2, w2),
{
    assert forall|i: int|
        0 <= i < c2.nodes@.len() implies conds_valid_for(
        entry_conditions(#[trigger] c2.nodes@[i]),
        w2,
    ) && (c2.nodes@[i] is System ==> c2.nodes@[i]->System_0.desc.action.valid_for(w2)) by {
        assert(entry_kinds_match(c1.nodes@[i], c2.nodes@[i]));
        assert forall|ci: int|
            0 <= ci < entry_conditions(c2.nodes@[i]).len() implies (#[trigger] entry_conditions(
            c2.nodes@[i],
        )[ci]).valid_for(w2) by {
            assert(entry_conditions(c1.nodes@[i])[ci].valid_for(w1));
            assert(entry_conditions(c2.nodes@[i])[ci].kind == entry_conditions(
                c1.nodes@[i],
            )[ci].kind);
        }
    }
}

// ---------------------------------------------------------------------------
// The dispatch state machine of the multi-threaded executor.
// ---------------------------------------------------------------------------

/// One tick of the multi-threaded executor, reduced to its dispatch
/// decisions over plan positions. A driver owning a worker pool picks a
/// position for which [`TickState::can_start`] holds, marks it running with
/// [`TickState::start`], hands the body to a worker, and on the completion
/// message marks it done with [`TickState::finish`]; a position whose
/// conditions failed is retired with [`TickState::skip`] instead. The
/// invariant [`tick_wf`] is what makes the dispatch safe: no two running
/// positions conflict, an exclusive position runs alone, and a position only
/// starts once everything ordered before it is done.
pub struct TickState {
    /// Positions completed or skipped.
    pub done: Vec<bool>,
    /// Positions handed to a worker and not yet completed.
    pub running: Vec<bool>,
}

/// The dispatch invariant over a tick.
pub open spec fn tick_wf(c: Schedule, p: ExecutionPlan, st: TickState) -> bool {
    &&& plan_matches(c, p)
    &&& st.done@.len() == p.order@.len()
    &&& st.running@.len() == p.order@.len()
    &&& forall|q: int|
        0 <= q < p.order@.len() ==> !((#[trigger] st.done@[q]) && st.running@[q])
    &&& forall|q: int, r: int|
        0 <= q < p.order@.len() && 0 <= r < p.order@.len() && (st.done@[q] || st.running@[q]) && (
        #[trigger] p.dep@[q]@[r]) ==> st.done@[r]
    &&& forall|q: int, r: int|
        0 <= q < p.order@.len() && 0 <= r < p.order@.len() && q != r && (#[trigger] st.running@[q])
            && (#[trigger] st.running@[r]) ==> !p.conflict@[q]@[r] && !p.exclusive@[q]
}

/// Position `q` may be dispatched: not yet retired, everything ordered before
/// it done, no conflict with anything running, and the exclusivity rules
/// hold.
pub open spec fn startable(c: Schedule, p: ExecutionPlan, st: TickState, q: usize) -> bool {
    &&& q < p.order@.len()
    &&& !st.done@[q as int]
    &&& !st.running@[q as int]
    &&& forall|r: int| 0 <= r < p.order@.len() && (#[trigger] p.dep@[q as int]@[r]) ==> st.done@[r]
    &&& forall|r: int|
        0 <= r < p.order@.len() && (#[trigger] st.running@[r]) ==> !p.conflict@[q as int]@[r]
            && !p.exclusive@[r] && !p.exclusive@[q as int]
}

impl TickState {
    /// A fresh tick: nothing running, nothing done.
    pub fn tick_start(p: &ExecutionPlan, Ghost(c): Ghost<Schedule>) -> (st: TickState)
        requires
            plan_matches(c, *p),
        ensures
            tick_wf(c, *p, st),
            forall|q: int| 0 <= q < p.order@.len() ==> !(#[trigger] st.done@[q]),
            forall|q: int| 0 <= q < p.order@.len() ==> !(#[trigger] st.running@[q]),
    {
        let m = p.order.len();
        let mut done: Vec<bool> = Vec::new();
        let mut running: Vec<bool> = Vec::new();
        let mut i: usize = 0;
        while i < m
            invariant
                i <= m,
                done@.len() == i,
                running@.len() == i,
                forall|q: int| 0 <= q < i ==> !(#[trigger] done@[q]),
                forall|q: int| 0 <= q < i ==> !(#[trigger] running@[q]),
            decreases m - i,
        {
            done.push(false);
            running.push(false);
            i = i + 1;
        }
        TickState { done, running }
    }

    /// Decides whether position `q` may be dispatched now.
    #[verifier::loop_isolation(false)]
    pub fn can_start(&self, p: &ExecutionPlan, q: usize, Ghost(c): Ghost<Schedule>) -> (r: bool)
        requires
            tick_wf(c, *p, *self),
            q < p.order@.len(),
        ensures
            r == startable(c, *p, *self, q),
    {
        let m = p.order.len();
        if self.done[q] || self.running[q] {
            return false;
        }
        let mut r: usize = 0;
        while r < m
            invariant
                r <= m,
                forall|r2: int| 0 <= r2 < r && (#[trigger] p.dep@[q as int]@[r2]) ==> self.done@[r2],
            decreases m - r,
        {
            if p.dep[q][r] && !self.done[r] {
                return false;
            }
            r = r + 1;
        }
        let mut r: usize = 0;
        while r < m
            invariant
                r <= m,
                forall|r2: int|
                    0 <= r2 < r && (#[trigger] self.running@[r2]) ==> !p.conflict@[q as int]@[r2]
                        && !p.exclusive@[r2] && !p.exclusive@[q as int],
            decreases m - r,
        {
            if self.running[r] {
                if p.conflict[q][r] || p.exclusive[r] || p.exclusive[q] {
                    return false;
                }
            }
            r = r + 1;
        }
        true
    }

    /// Dispatches position `q` onto a worker.
    pub fn start(&mut self, p: &ExecutionPlan, q: usize, Ghost(c): Ghost<Schedule>)
        requires
            tick_wf(c, *p, *old(self)),
            startable(c, *p, *old(self), q),
        ensures
            tick_wf(c, *p, *final(self)),
            final(self).running@ == old(self).running@.update(q as int, true),
            final(self).done == old(self).done,
    {
        self.running[q] = true;
    }

    /// Records the completion message of position `q`.
    pub fn finish(&mut self, p: &ExecutionPlan, q: usize, Ghost(c): Ghost<Schedule>)
        requires
            tick_wf(c, *p, *old(self)),
            q < p.order@.len(),
            old(self).running@[q as int],
        ensures
            tick_wf(c, *p, *final(self)),
            final(self).done@ == old(self).done@.update(q as int, true),
            final(self).running@ == old(self).running@.update(q as int, false),
    {
        self.running[q] = false;
        self.done[q] = true;
    }

    /// Retires position `q` without running it, because its conditions
    /// failed; its dependents are released just as on completion.
    pub fn skip(&mut self, p: &ExecutionPlan, q: usize, Ghost(c): Ghost<Schedule>)
        requires
            tick_wf(c, *p, *old(self)),
            startable(c, *p, *old(self), q),
        ensures
            tick_wf(c, *p, *final(self)),
            final(self).done@ == old(self).done@.update(q as int, true),
            final(self).running == old(self).running,
    {
        self.done[q] = true;
    }

    /// The tick is complete: every position was run or skipped.
    #[verifier::loop_isolation(false)]
    pub fn tick_done(&self, p: &ExecutionPlan, Ghost(c): Ghost<Schedule>) -> (r: bool)
        requires
            tick_wf(c, *p, *self),
        ensures
            r == forall|q: int| 0 <= q < p.order@.len() ==> (#[trigger] self.done@[q]),
    {
        let m = p.order.len();
        let mut q: usize = 0;
        while q < m
            invariant
                q <= m,
                forall|q2: int| 0 <= q2 < q ==> (#[trigger] self.done@[q2]),
            decreases m - q,
        {
            if !self.done[q] {
                return false;
            }
            q = q + 1;
        }
        true
    }
}

/// Whenever a position is running or done, everything reachable before it in
/// the lowered dependency relation is already done: the executor realises
/// every happens-before edge of the plan.
pub proof fn lemma_happens_before(
    c: Schedule,
    p: ExecutionPlan,
    st: TickState,
    pth: Seq<usize>,
)
    requires
        tick_wf(c, p, st),
        crate::graph::is_path(lowered_list(c), pth),
        st.done@[p.pos@[pth.last() as int] as int] || st.running@[p.pos@[pth.last() as int] as int],
    ensures
        st.done@[p.pos@[pth.first() as int] as int],
    decreases pth.len(),
{
    let e = (pth[pth.len() - 2], pth.last());
    assert(lowered_list(c).contains(e));
    lemma_lowered_list_contains(c, e);
    assert(c.lowered_edge(e.0, e.1));
    assert(c.is_system_node(e.0 as int) && c.is_system_node(e.1 as int));
    let q_last = p.pos@[pth.last() as int];
    let q_prev = p.pos@[e.0 as int];
    assert(p.order@[q_last as int] == pth.last());
    assert(p.order@[q_prev as int] == e.0);
    assert(p.dep@[q_last as int]@[q_prev as int]);
    assert(st.done@[q_prev as int]);
    if pth.len() == 2 {
    } else {
        let sub = pth.drop_last();
        assert(sub.len() >= 2);
        assert forall|k: int| 0 <= k < sub.len() - 1 implies lowered_list(c).contains(
            ((#[trigger] sub[k]), sub[k + 1]),
        ) by {
            assert(lowered_list(c).contains((pth[k], pth[k + 1])));
        }
        assert(crate::graph::is_path(lowered_list(c), sub));
        assert(sub.last() == e.0);
        lemma_happens_before(c, p, st, sub);
    }
}

/// No two positions running at once have conflicting access: either side of
/// such a pair would have been refused dispatch. This is the data-race
/// freedom of the dispatch machine.
pub proof fn lemma_running_race_free(
    c: Schedule,
    p: ExecutionPlan,
    st: TickState,
    q1: usize,
    q2: usize,
)
    requires
        tick_wf(c, p, st),
        q1 < p.order@.len(),
        q2 < p.order@.len(),
        q1 != q2,
        st.running@[q1 as int],
        st.running@[q2 as int],
    ensures
        !crate::system::accesses_conflict(
            c.sys_node(p.order@[q1 as int] as int).desc,
            c.sys_node(p.order@[q2 as int] as int).desc,
        ),
{
    let s1 = p.order@[q1 as int];
    let s2 = p.order@[q2 as int];
    assert(c.is_system_node(s1 as int) && c.is_system_node(s2 as int));
    if reaches(lowered_list(c), s1, s2) {
        let pth = choose|pth: Seq<usize>|
            #[trigger] crate::graph::is_path(lowered_list(c), pth) && pth.first() == s1
                && pth.last() == s2;
        assert(p.pos@[s2 as int] == q2);
        lemma_happens_before(c, p, st, pth);
        assert(st.done@[q1 as int]);
        assert(false);
    }
    if reaches(lowered_list(c), s2, s1) {
        let pth = choose|pth: Seq<usize>|
            #[trigger] crate::graph::is_path(lowered_list(c), pth) && pth.first() == s2
                && pth.last() == s1;
        lemma_happens_before(c, p, st, pth);
        assert(false);
    }
    assert(c.unordered(s1, s2));
    assert(!p.conflict@[q1 as int]@[q2 as int]);
}

impl Schedule {
    /// Starts a tick of the dispatch machine over the cached plan.
    pub fn dispatch_begin(&self) -> (st: TickState)
        requires
            self.wf(),
            (self.plan is Some),
        ensures
            tick_wf(*self, self.plan->Some_0, st),
            forall|q: int|
                0 <= q < self.plan->Some_0.order@.len() ==> !(#[trigger] st.done@[q]) && !(
                #[trigger] st.running@[q]),
    {
        match &self.plan {
            Some(p) => TickState::tick_start(p, Ghost(*self)),
            None => {
                proof {
                    assert(false);
                }
                TickState { done: Vec::new(), running: Vec::new() }
            },
        }
    }

    /// How many positions the cached plan has.
    pub fn dispatch_len(&self) -> (m: usize)
        requires
            (self.plan is Some),
        ensures
            m == self.plan->Some_0.order@.len(),
    {
        match &self.plan {
            Some(p) => p.order.len(),
            None => {
                proof {
                    assert(false);
                }
                0
            },
        }
    }

    /// Whether position `q` may be dispatched now.
    pub fn dispatch_can_start(&self, st: &TickState, q: usize) -> (r: bool)
        requires
            self.wf(),
            (self.plan is Some),
            tick_wf(*self, self.plan->Some_0, *st),
            q < self.plan->Some_0.order@.len(),
        ensures
            r == startable(*self, self.plan->Some_0, *st, q),
    {
        match &self.plan {
            Some(p) => st.can_start(p, q, Ghost(*self)),
            None => {
                proof {
                    assert(false);
                }
                false
            },
        }
    }

    /// Dispatches position `q` onto a worker.
    pub fn dispatch_start(&self, st: &mut TickState, q: usize)
        requires
            self.wf(),
            (self.plan is Some),
            tick_wf(*self, self.plan->Some_0, *old(st)),
            startable(*self, self.plan->Some_0, *old(st), q),
        ensures
            tick_wf(*self, self.plan->Some_0, *final(st)),
            final(st).running@ == old(st).running@.update(q as int, true),
            final(st).done == old(st).done,
    {
        match &self.plan {
            Some(p) => st.start(p, q, Ghost(*self)),
            None => {
                proof {
                    assert(false);
                }
            },
        }
    }

    /// Records the completion message of position `q`.
    pub fn dispatch_finish(&self, st: &mut TickState, q: usize)
        requires
            self.wf(),
            (self.plan is Some),
            tick_wf(*self, self.plan->Some_0, *old(st)),
            q < self.plan->Some_0.order@.len(),
            old(st).running@[q as int],
        ensures
            tick_wf(*self, self.plan->Some_0, *final(st)),
            final(st).done@ == old(st).done@.update(q as int, true),
            final(st).running@ == old(st).running@.update(q as int, false),
    {
        match &self.plan {
            Some(p) => st.finish(p, q, Ghost(*self)),
            None => {
                proof {
                    assert(false);
                }
            },
        }
    }

    /// Retires position `q` without running it.
    pub fn dispatch_skip(&self, st: &mut TickState, q: usize)
        requires
            self.wf(),
            (self.plan is Some),
            tick_wf(*self, self.plan->Some_0, *old(st)),
            startable(*self, self.plan->Some_0, *old(st), q),
        ensures
            tick_wf(*self, self.plan->Some_0, *final(st)),
            final(st).done@ == old(st).done@.update(q as int, true),
            final(st).running == old(st).running,
    {
        match &self.plan {
            Some(p) => st.skip(p, q, Ghost(*self)),
            None => {
                proof {
                    assert(false);
                }
            },
        }
    }

    /// Whether the tick is complete.
    pub fn dispatch_done(&self, st: &TickState) -> (r: bool)
        requires
            self.wf(),
            (self.plan is Some),
            tick_wf(*self, self.plan->Some_0, *st),
        ensures
            r == forall|q: int|
                0 <= q < self.plan->Some_0.order@.len() ==> (#[trigger] st.done@[q]),
    {
        match &self.plan {
            Some(p) => st.tick_done(p, Ghost(*self)),
            None => {
                proof {
                    assert(false);
                }
                true
            },
        }
    }

    /// The arena index of the system at plan position `q`, so a driver can
    /// hand its body to a worker.
    pub fn dispatch_system_at(&self, q: usize) -> (i: usize)
        requires
            self.wf(),
            (self.plan is Some),
            q < self.plan->Some_0.order@.len(),
        ensures
            i == self.plan->Some_0.order@[q as int],
            self.is_system_node(i as int),
    {
        match &self.plan {
            Some(p) => p.order[q],
            None => {
                proof {
                    assert(false);
                }
                0
            },
        }
    }
}

} // verus!
