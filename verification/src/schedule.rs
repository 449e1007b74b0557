//! The schedule: node registry, relation store, and builder operations.
//!
//! Systems and sets live in one node arena; hierarchy ("child is inside parent
//! set"), dependency ("before runs before after") and the ambiguous-with
//! whitelist are edge lists over arena indices. Builder calls only grow the
//! arena and the edge lists and invalidate the cached execution plan; the
//! build pass itself lives in [`crate::plan`].

use vstd::prelude::*;
use crate::config::{
    cond_ranges, leaves, CondGroup, FlatConfig, OrderTarget, SetConfig, SystemConfig,
    SystemConfigs, flatten, chain_edges,
};
use crate::system::{Condition, SystemNode};

verus! {

/// Public identity of a node: a system instance or a set, with its arena
/// index.
#[derive(Clone, Copy, PartialEq, Eq, Structural)]
pub enum NodeId {
    System(usize),
    SystemSet(usize),
}

/// The identity a set was interned under.
#[derive(Clone, Copy, PartialEq, Eq, Structural)]
pub enum SetKind {
    /// A user-supplied key.
    Named(u64),
    /// The synthetic set holding every instance of one system constructor.
    TypeSet(u64),
    /// A set created for the collective conditions of one group.
    Anonymous,
}

/// One set node: its identity and its run conditions.
pub struct SetEntry {
    pub kind: SetKind,
    pub conditions: Vec<Condition>,
}

/// One arena slot.
pub enum NodeEntry {
    System(SystemNode),
    SystemSet(SetEntry),
}

/// How thoroughly a structural finding is treated at build time.
#[derive(Clone, Copy, PartialEq, Eq, Structural)]
pub enum LogLevel {
    /// No check.
    Ignore,
    /// The finding is tolerated.
    Warn,
    /// The finding fails the build.
    Error,
}

/// Settings of the build pass. A tolerated finding is simply allowed
/// through: nothing is logged and no report of tolerated ambiguities is
/// kept.
#[derive(Clone, Copy, PartialEq, Eq, Structural)]
pub struct ScheduleBuildSettings {
    pub hierarchy_detection: LogLevel,
    pub ambiguity_detection: LogLevel,
}

impl Default for ScheduleBuildSettings {
    /// Hierarchy redundancy is tolerated, ambiguity is not checked.
    fn default() -> (r: ScheduleBuildSettings)
        ensures
            r.hierarchy_detection == LogLevel::Warn,
            r.ambiguity_detection == LogLevel::Ignore,
    {
        ScheduleBuildSettings {
            hierarchy_detection: LogLevel::Warn,
            ambiguity_detection: LogLevel::Ignore,
        }
    }
}

/// A structural error found by the build pass.
pub enum ScheduleBuildError {
    /// The hierarchy relation has a cycle (or a self-membership).
    HierarchyCycle,
    /// A node is inside an ancestor set both directly and through a longer
    /// path, and the settings treat that as an error.
    HierarchyRedundancy,
    /// The dependency relation has a cycle (or a self-ordering), directly or
    /// after lowering sets to their systems.
    DependencyCycle,
    /// Two nodes are related by hierarchy and by dependency at once.
    CrossDependency(NodeId, NodeId),
    /// Two sets are ordered against each other but share a system.
    SetsHaveOrderButIntersect(NodeId, NodeId),
    /// An ordering or whitelist edge targets the type-set of a system
    /// constructor with more than one instance.
    SystemTypeSetAmbiguity(u64),
    /// Two systems with conflicting access are neither ordered nor
    /// whitelisted, and the settings treat that as an error.
    Ambiguity,
}

/// The cached output of the build pass. `order` lists the system nodes
/// topologically; the square matrices are in position space.
pub struct ExecutionPlan {
    /// Arena indices of the system nodes, topologically sorted; ties fall
    /// back to insertion order.
    pub order: Vec<usize>,
    /// Position of each system node in `order`, indexed by arena index
    /// (unused entries hold zero).
    pub pos: Vec<usize>,
    /// `dep[q][p]`: position `p` must complete before position `q` starts.
    pub dep: Vec<Vec<bool>>,
    /// `conflict[p][q]`: the positions are unordered and their access sets
    /// conflict, so they must never run at the same time.
    pub conflict: Vec<Vec<bool>>,
    /// The position needs the whole world to itself.
    pub exclusive: Vec<bool>,
    /// Per position: the arena indices of ancestor sets carrying conditions.
    pub cond_sets: Vec<Vec<usize>>,
}

/// A scheduler instance: the node arena, the three relations, the build
/// settings, and the lazily built plan.
pub struct Schedule {
    pub nodes: Vec<NodeEntry>,
    /// Edges (child, parent set).
    pub hierarchy: Vec<(usize, usize)>,
    /// Edges (before, after).
    pub dependency: Vec<(usize, usize)>,
    /// Symmetric whitelist pairs.
    pub ambiguities: Vec<(usize, usize)>,
    pub settings: ScheduleBuildSettings,
    /// The cached plan; `None` after any mutation.
    pub plan: Option<ExecutionPlan>,
    /// Collective set-condition verdicts of the most recent tick, indexed by
    /// arena index; kept until the next tick begins.
    pub cond_cache: Vec<Option<bool>>,
}

impl Schedule {
    /// Number of arena slots.
    pub open spec fn node_count(self) -> nat {
        self.nodes@.len()
    }

    /// Slot `i` holds a system.
    pub open spec fn is_system_node(self, i: int) -> bool {
        0 <= i < self.nodes@.len() && self.nodes@[i] is System
    }

    /// Slot `i` holds a set.
    pub open spec fn is_set_node(self, i: int) -> bool {
        0 <= i < self.nodes@.len() && self.nodes@[i] is SystemSet
    }

    /// The system in slot `i`.
    pub open spec fn sys_node(self, i: int) -> SystemNode {
        self.nodes@[i]->System_0
    }

    /// The set in slot `i`.
    pub open spec fn set_entry(self, i: int) -> SetEntry {
        self.nodes@[i]->SystemSet_0
    }

    /// Slot `j` is the set interned under `kind`.
    pub open spec fn set_has_kind(self, j: int, kind: SetKind) -> bool {
        self.is_set_node(j) && self.set_entry(j).kind == kind
    }

    /// Slot `j` is what the order target names.
    pub open spec fn resolves(self, t: OrderTarget, j: int) -> bool {
        match t {
            OrderTarget::Named(key) => self.set_has_kind(j, SetKind::Named(key)),
            OrderTarget::SystemType(key) => self.set_has_kind(j, SetKind::TypeSet(key)),
        }
    }

    /// No two sets share a named or type identity.
    pub open spec fn sets_unique(self) -> bool {
        sets_unique_in(self.nodes@)
    }

    /// Every edge endpoint is a live slot and every hierarchy parent is a
    /// set.
    pub open spec fn edges_wf(self) -> bool {
        &&& hierarchy_edges_ok(self.nodes@, self.hierarchy@)
        &&& edge_ends_ok(self.nodes@, self.dependency@)
        &&& edge_ends_ok(self.nodes@, self.ambiguities@)
    }

    /// The schedule's invariant: sound edges, unique set identities, and a
    /// cached plan (if any) that matches the current graph.
    pub open spec fn wf(self) -> bool {
        &&& self.edges_wf()
        &&& self.sets_unique()
        &&& match self.plan {
            Some(p) => crate::plan::plan_matches(self, p) && self.buildable(),
            None => true,
        }
    }

    /// A fresh, empty schedule with default settings.
    pub fn new() -> (s: Schedule)
        ensures
            s.wf(),
            s.nodes@.len() == 0,
            s.hierarchy@.len() == 0,
            s.dependency@.len() == 0,
            s.ambiguities@.len() == 0,
            s.settings == (ScheduleBuildSettings {
                hierarchy_detection: LogLevel::Warn,
                ambiguity_detection: LogLevel::Ignore,
            }),
            (s.plan is None),
    {
        Schedule {
            nodes: Vec::new(),
            hierarchy: Vec::new(),
            dependency: Vec::new(),
            ambiguities: Vec::new(),
            settings: ScheduleBuildSettings {
                hierarchy_detection: LogLevel::Warn,
                ambiguity_detection: LogLevel::Ignore,
            },
            plan: None,
            cond_cache: Vec::new(),
        }
    }

    /// Replaces the build settings; the next run rebuilds the plan.
    pub fn set_build_settings(&mut self, settings: ScheduleBuildSettings)
        requires
            old(self).wf(),
        ensures
            final(self).wf(),
            final(self).settings == settings,
            (final(self).plan is None),
            final(self).nodes == old(self).nodes,
            final(self).hierarchy == old(self).hierarchy,
            final(self).dependency == old(self).dependency,
            final(self).ambiguities == old(self).ambiguities,
    {
        self.settings = settings;
        self.plan = None;
    }

    /// Returns the set interned under `kind`, creating it if it is new.
    /// Anonymous kinds always create a fresh set.
    #[verifier::loop_isolation(false)]
    fn intern_set(&mut self, kind: SetKind) -> (j: usize)
        requires
            old(self).wf(),
            (old(self).plan is None),
        ensures
            final(self).wf(),
            final(self).set_has_kind(j as int, kind),
            // The arena only grows by at most this one set.
            old(self).nodes@.len() <= final(self).nodes@.len() <= old(self).nodes@.len() + 1,
            forall|i: int| 0 <= i < old(self).nodes@.len() ==> final(self).nodes@[i] == old(self).nodes@[i],
            final(self).nodes@.len() > old(self).nodes@.len() ==> final(self).set_entry(
                old(self).nodes@.len() as int,
            ).kind == kind && final(self).set_entry(old(self).nodes@.len() as int).conditions@.len()
                == 0 && j == old(self).nodes@.len(),
            kind is Anonymous ==> j == old(self).nodes@.len() && final(self).nodes@.len() == old(
                self,
            ).nodes@.len() + 1,
            final(self).hierarchy == old(self).hierarchy,
            final(self).dependency == old(self).dependency,
            final(self).ambiguities == old(self).ambiguities,
            final(self).settings == old(self).settings,
            final(self).plan == old(self).plan,
            final(self).cond_cache == old(self).cond_cache,
    {
        let is_anon = match kind {
            SetKind::Anonymous => true,
            _ => false,
        };
        if !is_anon {
            let mut j: usize = 0;
            while j < self.nodes.len()
                invariant
                    j <= self.nodes@.len(),
                    forall|i: int| 0 <= i < j ==> !self.set_has_kind(i, kind),
                decreases self.nodes@.len() - j,
            {
                let found = match &self.nodes[j] {
                    NodeEntry::SystemSet(entry) => kinds_equal(&entry.kind, &kind),
                    NodeEntry::System(_) => false,
                };
                if found {
                    return j;
                }
                proof {
                    if self.set_has_kind(j as int, kind) {
                        assert(identities_clash(self.set_entry(j as int).kind, kind));
                    }
                }
                j = j + 1;
            }
        }
        let j = self.nodes.len();
        let ghost before = *self;
        proof {
            assert forall|i: int|
                0 <= i < before.nodes@.len() && (#[trigger] before.nodes@[i])
                    is SystemSet implies !identities_clash(
                before.nodes@[i]->SystemSet_0.kind,
                kind,
            ) by {
                match kind {
                    SetKind::Anonymous => {},
                    SetKind::Named(_) => {
                        assert(!before.set_has_kind(i, kind));
                    },
                    SetKind::TypeSet(_) => {
                        assert(!before.set_has_kind(i, kind));
                    },
                }
            }
        }
        self.nodes.push(NodeEntry::SystemSet(SetEntry { kind, conditions: Vec::new() }));
        proof {
            assert forall|j1: int, j2: int|
                0 <= j1 < self.nodes@.len() && 0 <= j2 < self.nodes@.len() && j1 != j2 && (
            #[trigger] self.nodes@[j1]) is SystemSet && (#[trigger] self.nodes@[j2])
                is SystemSet implies !identities_clash(
                self.nodes@[j1]->SystemSet_0.kind,
                self.nodes@[j2]->SystemSet_0.kind,
            ) by {
                if j1 < before.nodes@.len() && j2 < before.nodes@.len() {
                    assert(before.nodes@[j1] == self.nodes@[j1]);
                    assert(before.nodes@[j2] == self.nodes@[j2]);
                }
            }
        }
        j
    }
}

impl Schedule {
    /// What one appended dependency edge may be: a chain edge between two of
    /// the new systems, or a `before`/`after` modifier of one new leaf.
    pub open spec fn added_dep_edge_ok(
        self,
        n0: int,
        cfg: SystemConfigs,
        e: (usize, usize),
    ) -> bool {
        ||| chain_edges(cfg, 0).contains((e.0 - n0, e.1 - n0))
        ||| exists|k: int, ti: int|
            0 <= k < leaves(cfg).len() && e.0 == n0 + k && 0 <= ti < leaves(cfg)[k].before@.len()
                && self.resolves(#[trigger] leaves(cfg)[k].before@[ti], e.1 as int)
        ||| exists|k: int, ti: int|
            0 <= k < leaves(cfg).len() && e.1 == n0 + k && 0 <= ti < leaves(cfg)[k].after@.len()
                && self.resolves(#[trigger] leaves(cfg)[k].after@[ti], e.0 as int)
    }

    /// What one appended hierarchy edge may be: a new leaf inside its
    /// type-set, inside a named set it was placed in, or inside the anonymous
    /// set of a collective condition group.
    pub open spec fn added_hier_edge_ok(
        self,
        n0: int,
        cfg: SystemConfigs,
        e: (usize, usize),
    ) -> bool {
        ||| exists|k: int|
            0 <= k < leaves(cfg).len() && e.0 == n0 + k && self.set_has_kind(
                e.1 as int,
                SetKind::TypeSet((#[trigger] leaves(cfg)[k]).system.type_key),
            )
        ||| exists|k: int, ti: int|
            0 <= k < leaves(cfg).len() && e.0 == n0 + k && 0 <= ti < leaves(cfg)[k].in_sets@.len()
                && self.set_has_kind(
                e.1 as int,
                SetKind::Named(#[trigger] leaves(cfg)[k].in_sets@[ti]),
            )
        ||| exists|gi: int|
            0 <= gi < cond_ranges(cfg, 0).len() && n0 + (#[trigger] cond_ranges(cfg, 0)[gi]).1
                <= e.0 < n0 + cond_ranges(cfg, 0)[gi].2 && self.set_has_kind(
                e.1 as int,
                SetKind::Anonymous,
            ) && self.set_entry(e.1 as int).conditions@ == cond_ranges(cfg, 0)[gi].0
    }

    /// What one appended whitelist pair may be.
    pub open spec fn added_amb_edge_ok(
        self,
        n0: int,
        cfg: SystemConfigs,
        e: (usize, usize),
    ) -> bool {
        exists|k: int, ti: int|
            0 <= k < leaves(cfg).len() && e.0 == n0 + k && 0 <= ti < leaves(
                cfg,
            )[k].ambiguous_with@.len() && self.resolves(
                #[trigger] leaves(cfg)[k].ambiguous_with@[ti],
                e.1 as int,
            )
    }

    /// Everything the configuration asks for is present afterwards.
    pub open spec fn config_edges_present(self, n0: int, cfg: SystemConfigs) -> bool {
        &&& forall|pr: (int, int)|
            #[trigger] chain_edges(cfg, 0).contains(pr) ==> self.dependency@.contains(
                ((n0 + pr.0) as usize, (n0 + pr.1) as usize),
            )
        &&& self.mods_present_upto(n0, cfg, leaves(cfg).len() as int)
        &&& forall|gi: int, k: int|
            0 <= gi < cond_ranges(cfg, 0).len() && (#[trigger] cond_ranges(cfg, 0)[gi]).1 <= k
                < cond_ranges(cfg, 0)[gi].2 ==> #[trigger] self.anon_present(n0, cfg, gi, k)
    }

    /// The new arena: the old slots kept, the new systems as one block right
    /// after them, new sets after that.
    pub open spec fn config_nodes_added(self, old: Schedule, cfg: SystemConfigs) -> bool {
        let n0 = old.nodes@.len() as int;
        let l = leaves(cfg).len() as int;
        &&& self.nodes@.len() >= n0 + l
        &&& forall|i: int| 0 <= i < n0 ==> self.nodes@[i] == old.nodes@[i]
        &&& forall|k: int|
            0 <= k < l ==> self.is_system_node(n0 + k) && (#[trigger] self.sys_node(n0 + k)).desc
                == leaves(cfg)[k].system && self.sys_node(n0 + k).conditions == leaves(
                cfg,
            )[k].conditions
        &&& forall|i: int| n0 + l <= i < self.nodes@.len() ==> self.is_set_node(i)
    }

    /// The edge lists: old entries kept, every appended entry accounted for.
    pub open spec fn config_edges_added(self, old: Schedule, cfg: SystemConfigs) -> bool {
        let n0 = old.nodes@.len() as int;
        &&& self.dependency@.len() >= old.dependency@.len()
        &&& forall|k: int| 0 <= k < old.dependency@.len() ==> self.dependency@[k] == old.dependency@[k]
        &&& forall|k: int|
            old.dependency@.len() <= k < self.dependency@.len() ==> self.added_dep_edge_ok(
                n0,
                cfg,
                #[trigger] self.dependency@[k],
            )
        &&& self.hierarchy@.len() >= old.hierarchy@.len()
        &&& forall|k: int| 0 <= k < old.hierarchy@.len() ==> self.hierarchy@[k] == old.hierarchy@[k]
        &&& forall|k: int|
            old.hierarchy@.len() <= k < self.hierarchy@.len() ==> self.added_hier_edge_ok(
                n0,
                cfg,
                #[trigger] self.hierarchy@[k],
            )
        &&& self.ambiguities@.len() >= old.ambiguities@.len()
        &&& forall|k: int| 0 <= k < old.ambiguities@.len() ==> self.ambiguities@[k] == old.ambiguities@[k]
        &&& forall|k: int|
            old.ambiguities@.len() <= k < self.ambiguities@.len() ==> self.added_amb_edge_ok(
                n0,
                cfg,
                #[trigger] self.ambiguities@[k],
            )
    }
}

impl Schedule {
    /// Interns the set an order target names.
    #[verifier::loop_isolation(false)]
    fn intern_target(&mut self, t: &OrderTarget) -> (j: usize)
        requires
            old(self).wf(),
            (old(self).plan is None),
        ensures
            final(self).wf(),
            (final(self).plan is None),
            final(self).resolves(*t, j as int),
            old(self).nodes@.len() <= final(self).nodes@.len(),
            forall|i: int| 0 <= i < old(self).nodes@.len() ==> final(self).nodes@[i] == old(self).nodes@[i],
            forall|i: int|
                old(self).nodes@.len() <= i < final(self).nodes@.len() ==> final(self).is_set_node(i),
            final(self).hierarchy == old(self).hierarchy,
            final(self).dependency == old(self).dependency,
            final(self).ambiguities == old(self).ambiguities,
            final(self).settings == old(self).settings,
            final(self).cond_cache == old(self).cond_cache,
    {
        match t {
            OrderTarget::Named(key) => self.intern_set(SetKind::Named(*key)),
            OrderTarget::SystemType(key) => self.intern_set(SetKind::TypeSet(*key)),
        }
    }

    /// Creates a fresh anonymous set carrying the given conditions.
    #[verifier::loop_isolation(false)]
    fn push_anon_set(&mut self, conditions: Vec<Condition>) -> (j: usize)
        requires
            old(self).wf(),
            (old(self).plan is None),
        ensures
            final(self).wf(),
            (final(self).plan is None),
            j == old(self).nodes@.len(),
            final(self).nodes@.len() == old(self).nodes@.len() + 1,
            forall|i: int| 0 <= i < old(self).nodes@.len() ==> final(self).nodes@[i] == old(self).nodes@[i],
            final(self).set_has_kind(j as int, SetKind::Anonymous),
            final(self).set_entry(j as int).conditions == conditions,
            final(self).hierarchy == old(self).hierarchy,
            final(self).dependency == old(self).dependency,
            final(self).ambiguities == old(self).ambiguities,
            final(self).settings == old(self).settings,
            final(self).cond_cache == old(self).cond_cache,
    {
        let j = self.nodes.len();
        self.nodes.push(NodeEntry::SystemSet(SetEntry { kind: SetKind::Anonymous, conditions }));
        j
    }

    /// Adds a tree of system configurations: its leaves become fresh system
    /// nodes (one block, in traversal order), chaining becomes dependency
    /// edges between them, and the modifiers become hierarchy, dependency and
    /// whitelist edges against interned sets. Every system is also placed in
    /// the type-set of its constructor, and collective conditions are hung on
    /// a fresh anonymous set over the group's leaves.
    #[verifier::loop_isolation(false)]
    #[verifier::rlimit(100)]
    pub fn add_systems(&mut self, cfg: SystemConfigs)
        requires
            old(self).wf(),
        ensures
            final(self).wf(),
            (final(self).plan is None),
            final(self).config_nodes_added(*old(self), cfg),
            final(self).config_edges_added(*old(self), cfg),
            final(self).config_edges_present(old(self).nodes@.len() as int, cfg),
            final(self).settings == old(self).settings,
    {
        self.plan = None;
        let ghost c0 = *self;
        let base = self.nodes.len();
        let ghost n0 = base as int;
        let flat = flatten(cfg);
        let lcount = flat.leaves.len();
        let FlatConfig { leaves: flat_leaves, edges: flat_edges, groups: flat_groups } = flat;
        // Pass one: the leaves become one contiguous block of system nodes;
        // their modifiers are kept aside.
        let mut rest = flat_leaves;
        let mut mods: Vec<(Vec<u64>, Vec<OrderTarget>, Vec<OrderTarget>, Vec<OrderTarget>)> =
            Vec::new();
        let mut k: usize = 0;
        while rest.len() > 0
            invariant
                k + rest@.len() == lcount,
                lcount == leaves(cfg).len(),
                rest@ == leaves(cfg).subrange(k as int, lcount as int),
                mods@.len() == k,
                self.nodes@.len() == n0 + k,
                forall|i: int| 0 <= i < n0 ==> self.nodes@[i] == c0.nodes@[i],
                forall|kk: int|
                    0 <= kk < k ==> self.is_system_node(n0 + kk) && (#[trigger] self.sys_node(
                        n0 + kk,
                    )).desc == leaves(cfg)[kk].system && self.sys_node(n0 + kk).conditions
                        == leaves(cfg)[kk].conditions,
                forall|kk: int|
                    0 <= kk < k ==> (#[trigger] mods@[kk]).0 == leaves(cfg)[kk].in_sets
                        && mods@[kk].1 == leaves(cfg)[kk].before && mods@[kk].2 == leaves(
                        cfg,
                    )[kk].after && mods@[kk].3 == leaves(cfg)[kk].ambiguous_with,
                self.hierarchy == c0.hierarchy,
                self.dependency == c0.dependency,
                self.ambiguities == c0.ambiguities,
                self.settings == c0.settings,
                self.cond_cache == c0.cond_cache,
                (self.plan is None),
                self.wf(),
            decreases rest@.len(),
        {
            let ghost spre = *self;
            let leaf = rest.remove(0);
            proof {
                let sub = leaves(cfg).subrange(k as int, lcount as int);
                assert(leaf == sub[0]);
                assert(sub[0] == leaves(cfg)[k as int]);
            }
            let SystemConfig {
                system,
                in_sets,
                before,
                after,
                ambiguous_with,
                conditions,
            } = leaf;
            self.nodes.push(NodeEntry::System(SystemNode { desc: system, conditions }));
            mods.push((in_sets, before, after, ambiguous_with));
            k = k + 1;
            proof {
                assert(rest@ =~= leaves(cfg).subrange(k as int, lcount as int));
                assert forall|kk: int| 0 <= kk < k implies self.is_system_node(n0 + kk)
                    && (#[trigger] self.sys_node(n0 + kk)).desc == leaves(
                    cfg,
                )[kk].system && self.sys_node(n0 + kk).conditions == leaves(
                    cfg,
                )[kk].conditions by {
                    if kk < k - 1 {
                        let w = spre.sys_node(n0 + kk);
                        assert(spre.is_system_node(n0 + kk));
                        assert(self.nodes@[n0 + kk] == spre.nodes@[n0 + kk]);
                    } else {
                        assert(self.nodes@[n0 + kk] == NodeEntry::System(
                            SystemNode { desc: system, conditions },
                        ));
                    }
                }
            }
        }
        // Pass two: per leaf, the type-set membership and the modifiers.
        let mut k2: usize = 0;
        while k2 < lcount
            invariant
                lcount == leaves(cfg).len(),
                mods@.len() == lcount,
                forall|kk: int|
                    0 <= kk < lcount ==> (#[trigger] mods@[kk]).0 == leaves(cfg)[kk].in_sets
                        && mods@[kk].1 == leaves(cfg)[kk].before && mods@[kk].2 == leaves(
                        cfg,
                    )[kk].after && mods@[kk].3 == leaves(cfg)[kk].ambiguous_with,
                self.wf(),
                (self.plan is None),
                self.config_nodes_added(c0, cfg),
                self.config_edges_added(c0, cfg),
                self.settings == c0.settings,
                self.cond_cache == c0.cond_cache,
                self.mods_present_upto(n0, cfg, k2 as int),
                k2 <= lcount,
            decreases lcount - k2,
        {
            let node_total = self.nodes.len();
            proof {
                assert(n0 + lcount <= node_total as int);
                let w = self.sys_node(n0 + k2 as int);
                assert(self.is_system_node(n0 + k2 as int));
            }
            let tkey = match &self.nodes[base + k2] {
                NodeEntry::System(sn) => sn.desc.type_key,
                NodeEntry::SystemSet(_) => {
                    proof {
                        assert(false);
                    }
                    0
                },
            };
            proof {
                assert(tkey == leaves(cfg)[k2 as int].system.type_key);
            }
            let ghost pre1 = *self;
            let ts = self.intern_set(SetKind::TypeSet(tkey));
            proof {
                lemma_predicates_stable(c0, pre1, *self, cfg, n0, k2 as int);
            }
            let ghost pre2 = *self;
            self.hierarchy.push((base + k2, ts));
            proof {
                assert(self.hierarchy@[self.hierarchy@.len() - 1] == (((base + k2) as usize), ts));
                assert(self.set_has_kind(ts as int, SetKind::TypeSet(
                    leaves(cfg)[k2 as int].system.type_key,
                )));
                assert(self.added_hier_edge_ok(n0, cfg, ((base + k2) as usize, ts)));
                lemma_predicates_stable(c0, pre2, *self, cfg, n0, k2 as int);
                assert(self.ts_present(n0, cfg, k2 as int));
            }
            let mut ti: usize = 0;
            let in_count = mods[k2].0.len();
            while ti < in_count
                invariant
                    lcount == leaves(cfg).len(),
                    mods@.len() == lcount,
                    forall|kk: int|
                        0 <= kk < lcount ==> (#[trigger] mods@[kk]).0 == leaves(cfg)[kk].in_sets
                            && mods@[kk].1 == leaves(cfg)[kk].before && mods@[kk].2 == leaves(
                            cfg,
                        )[kk].after && mods@[kk].3 == leaves(cfg)[kk].ambiguous_with,
                    self.wf(),
                    (self.plan is None),
                    self.config_nodes_added(c0, cfg),
                    self.config_edges_added(c0, cfg),
                    self.settings == c0.settings,
                    self.cond_cache == c0.cond_cache,
                    self.mods_present_upto(n0, cfg, k2 as int),
                    k2 < lcount,
                    in_count == leaves(cfg)[k2 as int].in_sets@.len(),
                    ti <= in_count,
                    self.ts_present(n0, cfg, k2 as int),
                    forall|tj: int| 0 <= tj < ti ==> #[trigger] self.inset_present(n0, cfg, k2 as int, tj),
                decreases in_count - ti,
            {
                let key = mods[k2].0[ti];
                let ghost pre1 = *self;
                let j = self.intern_set(SetKind::Named(key));
                proof {
                    lemma_predicates_stable(c0, pre1, *self, cfg, n0, k2 as int);
                    lemma_partials_stable(pre1, *self, n0, cfg, k2 as int, ti as int, 0, 0, 0);
                }
                let ghost pre2 = *self;
                self.hierarchy.push((base + k2, j));
                proof {
                    assert(self.hierarchy@[self.hierarchy@.len() - 1] == (((base + k2) as usize),
                    j));
                    assert(key == leaves(cfg)[k2 as int].in_sets@[ti as int]);
                    assert(self.added_hier_edge_ok(n0, cfg, ((base + k2) as usize, j)));
                    lemma_predicates_stable(c0, pre2, *self, cfg, n0, k2 as int);
                    lemma_partials_stable(pre2, *self, n0, cfg, k2 as int, ti as int, 0, 0, 0);
                    assert(self.inset_present(n0, cfg, k2 as int, ti as int));
                }
                ti = ti + 1;
            }
            let mut tb: usize = 0;
            let before_count = mods[k2].1.len();
            while tb < before_count
                invariant
                    lcount == leaves(cfg).len(),
                    mods@.len() == lcount,
                    forall|kk: int|
                        0 <= kk < lcount ==> (#[trigger] mods@[kk]).0 == leaves(cfg)[kk].in_sets
                            && mods@[kk].1 == leaves(cfg)[kk].before && mods@[kk].2 == leaves(
                            cfg,
                        )[kk].after && mods@[kk].3 == leaves(cfg)[kk].ambiguous_with,
                    self.wf(),
                    (self.plan is None),
                    self.config_nodes_added(c0, cfg),
                    self.config_edges_added(c0, cfg),
                    self.settings == c0.settings,
                    self.cond_cache == c0.cond_cache,
                    self.mods_present_upto(n0, cfg, k2 as int),
                    k2 < lcount,
                    before_count == leaves(cfg)[k2 as int].before@.len(),
                    tb <= before_count,
                    self.ts_present(n0, cfg, k2 as int),
                    forall|tj: int| 0 <= tj < leaves(cfg)[k2 as int].in_sets@.len() ==> #[trigger] self.inset_present(n0, cfg, k2 as int, tj),
                    forall|tj: int| 0 <= tj < tb ==> #[trigger] self.before_present(n0, cfg, k2 as int, tj),
                decreases before_count - tb,
            {
                let t = mods[k2].1[tb];
                let ghost pre1 = *self;
                let j = self.intern_target(&t);
                proof {
                    lemma_predicates_stable(c0, pre1, *self, cfg, n0, k2 as int);
                    lemma_partials_stable(
                        pre1,
                        *self,
                        n0,
                        cfg,
                        k2 as int,
                        leaves(cfg)[k2 as int].in_sets@.len() as int,
                        tb as int,
                        0,
                        0,
                    );
                }
                let ghost pre2 = *self;
                self.dependency.push((base + k2, j));
                proof {
                    assert(self.dependency@[self.dependency@.len() - 1] == (((base + k2) as usize),
                    j));
                    assert(t == leaves(cfg)[k2 as int].before@[tb as int]);
                    assert(self.resolves(leaves(cfg)[k2 as int].before@[tb as int], j as int));
                    assert(self.added_dep_edge_ok(n0, cfg, ((base + k2) as usize, j)));
                    lemma_predicates_stable(c0, pre2, *self, cfg, n0, k2 as int);
                    lemma_partials_stable(
                        pre2,
                        *self,
                        n0,
                        cfg,
                        k2 as int,
                        leaves(cfg)[k2 as int].in_sets@.len() as int,
                        tb as int,
                        0,
                        0,
                    );
                    assert(self.before_present(n0, cfg, k2 as int, tb as int));
                }
                tb = tb + 1;
            }
            let mut ta: usize = 0;
            let after_count = mods[k2].2.len();
            while ta < after_count
                invariant
                    lcount == leaves(cfg).len(),
                    mods@.len() == lcount,
                    forall|kk: int|
                        0 <= kk < lcount ==> (#[trigger] mods@[kk]).0 == leaves(cfg)[kk].in_sets
                            && mods@[kk].1 == leaves(cfg)[kk].before && mods@[kk].2 == leaves(
                            cfg,
                        )[kk].after && mods@[kk].3 == leaves(cfg)[kk].ambiguous_with,
                    self.wf(),
                    (self.plan is None),
                    self.config_nodes_added(c0, cfg),
                    self.config_edges_added(c0, cfg),
                    self.settings == c0.settings,
                    self.cond_cache == c0.cond_cache,
                    self.mods_present_upto(n0, cfg, k2 as int),
                    k2 < lcount,
                    after_count == leaves(cfg)[k2 as int].after@.len(),
                    ta <= after_count,
                    self.ts_present(n0, cfg, k2 as int),
                    forall|tj: int| 0 <= tj < leaves(cfg)[k2 as int].in_sets@.len() ==> #[trigger] self.inset_present(n0, cfg, k2 as int, tj),
                    forall|tj: int| 0 <= tj < leaves(cfg)[k2 as int].before@.len() ==> #[trigger] self.before_present(n0, cfg, k2 as int, tj),
                    forall|tj: int| 0 <= tj < ta ==> #[trigger] self.after_present(n0, cfg, k2 as int, tj),
                decreases after_count - ta,
            {
                let t = mods[k2].2[ta];
                let ghost pre1 = *self;
                let j = self.intern_target(&t);
                proof {
                    lemma_predicates_stable(c0, pre1, *self, cfg, n0, k2 as int);
                    lemma_partials_stable(
                        pre1,
                        *self,
                        n0,
                        cfg,
                        k2 as int,
                        leaves(cfg)[k2 as int].in_sets@.len() as int,
                        leaves(cfg)[k2 as int].before@.len() as int,
                        ta as int,
                        0,
                    );
                }
                let ghost pre2 = *self;
                self.dependency.push((j, base + k2));
                proof {
                    assert(self.dependency@[self.dependency@.len() - 1] == (j, ((base + k2)
                        as usize)));
                    assert(t == leaves(cfg)[k2 as int].after@[ta as int]);
                    assert(self.resolves(leaves(cfg)[k2 as int].after@[ta as int], j as int));
                    assert(self.added_dep_edge_ok(n0, cfg, (j, (base + k2) as usize)));
                    lemma_predicates_stable(c0, pre2, *self, cfg, n0, k2 as int);
                    lemma_partials_stable(
                        pre2,
                        *self,
                        n0,
                        cfg,
                        k2 as int,
                        leaves(cfg)[k2 as int].in_sets@.len() as int,
                        leaves(cfg)[k2 as int].before@.len() as int,
                        ta as int,
                        0,
                    );
                    assert(self.after_present(n0, cfg, k2 as int, ta as int));
                }
                ta = ta + 1;
            }
            let mut tw: usize = 0;
            let amb_count = mods[k2].3.len();
            while tw < amb_count
                invariant
                    lcount == leaves(cfg).len(),
                    mods@.len() == lcount,
                    forall|kk: int|
                        0 <= kk < lcount ==> (#[trigger] mods@[kk]).0 == leaves(cfg)[kk].in_sets
                            && mods@[kk].1 == leaves(cfg)[kk].before && mods@[kk].2 == leaves(
                            cfg,
                        )[kk].after && mods@[kk].3 == leaves(cfg)[kk].ambiguous_with,
                    self.wf(),
                    (self.plan is None),
                    self.config_nodes_added(c0, cfg),
                    self.config_edges_added(c0, cfg),
                    self.settings == c0.settings,
                    self.cond_cache == c0.cond_cache,
                    self.mods_present_upto(n0, cfg, k2 as int),
                    k2 < lcount,
                    amb_count == leaves(cfg)[k2 as int].ambiguous_with@.len(),
                    tw <= amb_count,
                    self.ts_present(n0, cfg, k2 as int),
                    forall|tj: int| 0 <= tj < leaves(cfg)[k2 as int].in_sets@.len() ==> #[trigger] self.inset_present(n0, cfg, k2 as int, tj),
                    forall|tj: int| 0 <= tj < leaves(cfg)[k2 as int].before@.len() ==> #[trigger] self.before_present(n0, cfg, k2 as int, tj),
                    forall|tj: int| 0 <= tj < leaves(cfg)[k2 as int].after@.len() ==> #[trigger] self.after_present(n0, cfg, k2 as int, tj),
                    forall|tj: int| 0 <= tj < tw ==> #[trigger] self.amb_present(n0, cfg, k2 as int, tj),
                decreases amb_count - tw,
            {
                let t = mods[k2].3[tw];
                let ghost pre1 = *self;
                let j = self.intern_target(&t);
                proof {
                    lemma_predicates_stable(c0, pre1, *self, cfg, n0, k2 as int);
                    lemma_partials_stable(
                        pre1,
                        *self,
                        n0,
                        cfg,
                        k2 as int,
                        leaves(cfg)[k2 as int].in_sets@.len() as int,
                        leaves(cfg)[k2 as int].before@.len() as int,
                        leaves(cfg)[k2 as int].after@.len() as int,
                        tw as int,
                    );
                }
                let ghost pre2 = *self;
                self.ambiguities.push((base + k2, j));
                proof {
                    assert(self.ambiguities@[self.ambiguities@.len() - 1] == (((base + k2)
                        as usize), j));
                    assert(t == leaves(cfg)[k2 as int].ambiguous_with@[tw as int]);
                    assert(self.resolves(leaves(cfg)[k2 as int].ambiguous_with@[tw as int], j as int));
                    assert(self.added_amb_edge_ok(n0, cfg, ((base + k2) as usize, j)));
                    lemma_predicates_stable(c0, pre2, *self, cfg, n0, k2 as int);
                    lemma_partials_stable(
                        pre2,
                        *self,
                        n0,
                        cfg,
                        k2 as int,
                        leaves(cfg)[k2 as int].in_sets@.len() as int,
                        leaves(cfg)[k2 as int].before@.len() as int,
                        leaves(cfg)[k2 as int].after@.len() as int,
                        tw as int,
                    );
                    assert(self.amb_present(n0, cfg, k2 as int, tw as int));
                }
                tw = tw + 1;
            }
            k2 = k2 + 1;
            proof {
                assert(self.mods_present_upto(n0, cfg, k2 as int));
            }
        }
        // Pass three: the chain edges between the new systems.
        proof {
            crate::config::lemma_chain_edges_bounds(cfg, 0);
        }
        let mut ke: usize = 0;
        while ke < flat_edges.len()
            invariant
                lcount == leaves(cfg).len(),
                forall|e: (usize, usize)|
                    #[trigger] flat_edges@.contains(e) <==> chain_edges(cfg, 0).contains(
                        (e.0 as int, e.1 as int),
                    ),
                forall|kk: int|
                    0 <= kk < flat_edges@.len() ==> (#[trigger] flat_edges@[kk]).0 < lcount
                        && flat_edges@[kk].1 < lcount,
                ke <= flat_edges@.len(),
                self.wf(),
                (self.plan is None),
                self.config_nodes_added(c0, cfg),
                self.config_edges_added(c0, cfg),
                self.settings == c0.settings,
                self.cond_cache == c0.cond_cache,
                self.mods_present_upto(n0, cfg, lcount as int),
                forall|kk: int|
                    0 <= kk < ke ==> self.dependency@.contains(
                        (((n0 + (#[trigger] flat_edges@[kk]).0 as int) as usize), ((n0
                            + flat_edges@[kk].1 as int) as usize)),
                    ),
            decreases flat_edges@.len() - ke,
        {
            let (a, b) = flat_edges[ke];
            let node_total = self.nodes.len();
            proof {
                assert(n0 + lcount <= node_total as int);
            }
            let ghost pre2 = *self;
            self.dependency.push((base + a, base + b));
            proof {
                assert(flat_edges@.contains(flat_edges@[ke as int]));
                assert(chain_edges(cfg, 0).contains((a as int, b as int)));
                assert(self.dependency@[self.dependency@.len() - 1] == (((base + a) as usize), ((
                base + b) as usize)));
                assert(self.added_dep_edge_ok(n0, cfg, ((base + a) as usize, (base + b) as usize)));
                lemma_predicates_stable(c0, pre2, *self, cfg, n0, lcount as int);
                assert forall|kk: int| 0 <= kk < ke + 1 implies self.dependency@.contains(
                    (((n0 + (#[trigger] flat_edges@[kk]).0 as int) as usize), ((n0
                        + flat_edges@[kk].1 as int) as usize)),
                ) by {
                    if kk < ke {
                        assert(pre2.dependency@.contains(
                            (((n0 + flat_edges@[kk].0 as int) as usize), ((n0 + flat_edges@[kk].1
                                as int) as usize)),
                        ));
                        lemma_contains_stable(
                            pre2.dependency@,
                            self.dependency@,
                            (((n0 + flat_edges@[kk].0 as int) as usize), ((n0 + flat_edges@[kk].1
                                as int) as usize)),
                        );
                    } else {
                        assert(self.dependency@.contains(
                            (((base + a) as usize), ((base + b) as usize)),
                        ));
                    }
                }
            }
            ke = ke + 1;
        }
        // Pass four: anonymous sets for the collective condition groups.
        proof {
            crate::config::lemma_cond_ranges_bounds(cfg, 0);
        }
        let mut grest = flat_groups;
        let ghost gview = grest@;
        let ghost ranges = cond_ranges(cfg, 0);
        let ghost mut gi: int = 0;
        while grest.len() > 0
            invariant
                lcount == leaves(cfg).len(),
                0 <= gi,
                gi + grest@.len() == ranges.len(),
                grest@ == gview.subrange(gi, gview.len() as int),
                gview.len() == ranges.len(),
                forall|g: int|
                    0 <= g < gview.len() ==> (#[trigger] gview[g]).conditions@ == ranges[g].0
                        && gview[g].start == ranges[g].1 && gview[g].end == ranges[g].2,
                forall|g: int|
                    0 <= g < ranges.len() ==> 0 <= (#[trigger] ranges[g]).1 && ranges[g].1
                        <= ranges[g].2 && ranges[g].2 <= lcount,
                self.wf(),
                (self.plan is None),
                self.config_nodes_added(c0, cfg),
                self.config_edges_added(c0, cfg),
                self.settings == c0.settings,
                self.cond_cache == c0.cond_cache,
                self.mods_present_upto(n0, cfg, lcount as int),
                forall|kk: int|
                    0 <= kk < flat_edges@.len() ==> self.dependency@.contains(
                        (((n0 + (#[trigger] flat_edges@[kk]).0 as int) as usize), ((n0
                            + flat_edges@[kk].1 as int) as usize)),
                    ),
                forall|g: int, kk: int|
                    0 <= g < gi && (#[trigger] ranges[g]).1 <= kk < ranges[g].2
                        ==> #[trigger] self.anon_present(n0, cfg, g, kk),
            decreases grest@.len(),
        {
            let group = grest.remove(0);
            let CondGroup { conditions, start, end } = group;
            proof {
                assert(group == gview[gi]);
                assert(conditions@ == ranges[gi].0);
                assert(start == ranges[gi].1 && end == ranges[gi].2);
                assert(grest@ =~= gview.subrange(gi + 1, gview.len() as int));
            }
            let ghost pre1 = *self;
            let sigma = self.push_anon_set(conditions);
            proof {
                lemma_predicates_stable(c0, pre1, *self, cfg, n0, lcount as int);
                assert forall|g: int, kk: int|
                    0 <= g < gi && (#[trigger] ranges[g]).1 <= kk < ranges[g].2
                    implies #[trigger] self.anon_present(n0, cfg, g, kk) by {
                    assert(pre1.anon_present(n0, cfg, g, kk));
                    lemma_anon_present_stable(pre1, *self, n0, cfg, g, kk);
                }
            }
            let mut idx = start;
            while idx < end
                invariant
                    lcount == leaves(cfg).len(),
                    0 <= gi < ranges.len(),
                    start == ranges[gi].1,
                    end == ranges[gi].2,
                    end <= lcount,
                    start <= idx <= end,
                    self.wf(),
                    (self.plan is None),
                    self.config_nodes_added(c0, cfg),
                    self.config_edges_added(c0, cfg),
                    self.settings == c0.settings,
                    self.cond_cache == c0.cond_cache,
                    self.mods_present_upto(n0, cfg, lcount as int),
                    forall|kk: int|
                        0 <= kk < flat_edges@.len() ==> self.dependency@.contains(
                            (((n0 + (#[trigger] flat_edges@[kk]).0 as int) as usize), ((n0
                                + flat_edges@[kk].1 as int) as usize)),
                        ),
                    sigma < self.nodes@.len(),
                    self.set_has_kind(sigma as int, SetKind::Anonymous),
                    self.set_entry(sigma as int).conditions@ == ranges[gi].0,
                    forall|g: int, kk: int|
                        0 <= g < gi && (#[trigger] ranges[g]).1 <= kk < ranges[g].2
                            ==> #[trigger] self.anon_present(n0, cfg, g, kk),
                    forall|kk: int|
                        start <= kk < idx ==> self.hierarchy@.contains(
                            (((#[trigger] (n0 + kk)) as usize), sigma),
                        ),
                decreases end - idx,
            {
                let node_total = self.nodes.len();
                proof {
                    assert(n0 + lcount <= node_total as int);
                }
                let ghost pre2 = *self;
                self.hierarchy.push((base + idx, sigma));
                proof {
                    assert(self.hierarchy@[self.hierarchy@.len() - 1] == (((base + idx)
                        as usize), sigma));
                    assert(self.added_hier_edge_ok(
                        n0,
                        cfg,
                        ((base + idx) as usize, sigma),
                    ));
                    lemma_predicates_stable(c0, pre2, *self, cfg, n0, lcount as int);
                    assert forall|g: int, kk: int|
                        0 <= g < gi && (#[trigger] ranges[g]).1 <= kk < ranges[g].2
                        implies #[trigger] self.anon_present(n0, cfg, g, kk) by {
                        assert(pre2.anon_present(n0, cfg, g, kk));
                        lemma_anon_present_stable(pre2, *self, n0, cfg, g, kk);
                    }
                    assert forall|kk: int| start <= kk < idx + 1 implies self
                        .hierarchy@.contains(
                        (((#[trigger] (n0 + kk)) as usize), sigma),
                    ) by {
                        if kk < idx {
                            lemma_contains_stable(
                                pre2.hierarchy@,
                                self.hierarchy@,
                                (((n0 + kk) as usize), sigma),
                            );
                        }
                    }
                }
                idx = idx + 1;
            }
            proof {
                gi = gi + 1;
            }
        }
        proof {
            assert forall|pr: (int, int)| #[trigger] chain_edges(cfg, 0).contains(pr) implies self
                .dependency@.contains(((n0 + pr.0) as usize, (n0 + pr.1) as usize)) by {
                let e = ((pr.0 as usize), (pr.1 as usize));
                assert(flat_edges@.contains(e));
                let kk = choose|kk: int| 0 <= kk < flat_edges@.len() && flat_edges@[kk] == e;
                assert(self.dependency@.contains(
                    (((n0 + flat_edges@[kk].0 as int) as usize), ((n0 + flat_edges@[kk].1
                        as int) as usize)),
                ));
            }
        }
    }

}

/// Reverses a vector.
impl Schedule {
    /// Leaf `kk` sits in the type-set of its constructor.
    pub open spec fn ts_present(self, n0: int, cfg: SystemConfigs, kk: int) -> bool {
        exists|j: usize|
            self.set_has_kind(j as int, SetKind::TypeSet(leaves(cfg)[kk].system.type_key))
                && self.hierarchy@.contains(((n0 + kk) as usize, j))
    }

    /// Leaf `kk` sits in the named set `ti` of its `in_set` list.
    pub open spec fn inset_present(self, n0: int, cfg: SystemConfigs, kk: int, ti: int) -> bool {
        exists|j: usize|
            self.set_has_kind(j as int, SetKind::Named(leaves(cfg)[kk].in_sets@[ti]))
                && self.hierarchy@.contains(((n0 + kk) as usize, j))
    }

    /// Leaf `kk` runs before target `ti` of its `before` list.
    pub open spec fn before_present(self, n0: int, cfg: SystemConfigs, kk: int, ti: int) -> bool {
        exists|j: usize|
            self.resolves(leaves(cfg)[kk].before@[ti], j as int) && self.dependency@.contains(
                ((n0 + kk) as usize, j),
            )
    }

    /// Leaf `kk` runs after target `ti` of its `after` list.
    pub open spec fn after_present(self, n0: int, cfg: SystemConfigs, kk: int, ti: int) -> bool {
        exists|j: usize|
            self.resolves(leaves(cfg)[kk].after@[ti], j as int) && self.dependency@.contains(
                (j, (n0 + kk) as usize),
            )
    }

    /// Leaf `kk` is whitelisted against target `ti` of its list.
    pub open spec fn amb_present(self, n0: int, cfg: SystemConfigs, kk: int, ti: int) -> bool {
        exists|j: usize|
            self.resolves(leaves(cfg)[kk].ambiguous_with@[ti], j as int)
                && self.ambiguities@.contains(((n0 + kk) as usize, j))
    }

    /// Leaf `kk` sits in the anonymous set of condition group `gi`.
    pub open spec fn anon_present(self, n0: int, cfg: SystemConfigs, gi: int, kk: int) -> bool {
        exists|j: usize|
            self.set_has_kind(j as int, SetKind::Anonymous) && self.set_entry(j as int).conditions@
                == cond_ranges(cfg, 0)[gi].0 && self.hierarchy@.contains(((n0 + kk) as usize, j))
    }

    /// The modifiers of the first `m` leaves are all wired up.
    pub open spec fn mods_present_upto(self, n0: int, cfg: SystemConfigs, m: int) -> bool {
        &&& forall|kk: int| 0 <= kk < m ==> #[trigger] self.ts_present(n0, cfg, kk)
        &&& forall|kk: int, ti: int|
            0 <= kk < m && 0 <= ti < leaves(cfg)[kk].in_sets@.len() ==> #[trigger] self.inset_present(
                n0,
                cfg,
                kk,
                ti,
            )
        &&& forall|kk: int, ti: int|
            0 <= kk < m && 0 <= ti < leaves(cfg)[kk].before@.len() ==> #[trigger] self.before_present(
                n0,
                cfg,
                kk,
                ti,
            )
        &&& forall|kk: int, ti: int|
            0 <= kk < m && 0 <= ti < leaves(cfg)[kk].after@.len() ==> #[trigger] self.after_present(
                n0,
                cfg,
                kk,
                ti,
            )
        &&& forall|kk: int, ti: int|
            0 <= kk < m && 0 <= ti < leaves(cfg)[kk].ambiguous_with@.len()
                ==> #[trigger] self.amb_present(n0, cfg, kk, ti)
    }
}

/// The facts about the leaf currently being wired survive growth.
proof fn lemma_partials_stable(
    pre: Schedule,
    post: Schedule,
    n0: int,
    cfg: SystemConfigs,
    k2: int,
    nin: int,
    nb: int,
    na: int,
    nw: int,
)
    requires
        pre.ts_present(n0, cfg, k2),
        forall|tj: int| 0 <= tj < nin ==> #[trigger] pre.inset_present(n0, cfg, k2, tj),
        forall|tj: int| 0 <= tj < nb ==> #[trigger] pre.before_present(n0, cfg, k2, tj),
        forall|tj: int| 0 <= tj < na ==> #[trigger] pre.after_present(n0, cfg, k2, tj),
        forall|tj: int| 0 <= tj < nw ==> #[trigger] pre.amb_present(n0, cfg, k2, tj),
        nin <= leaves(cfg)[k2].in_sets@.len(),
        nb <= leaves(cfg)[k2].before@.len(),
        na <= leaves(cfg)[k2].after@.len(),
        nw <= leaves(cfg)[k2].ambiguous_with@.len(),
        0 <= k2 < leaves(cfg).len(),
        post.nodes@.len() >= pre.nodes@.len(),
        forall|i: int| 0 <= i < pre.nodes@.len() ==> post.nodes@[i] == pre.nodes@[i],
        post.hierarchy@.len() >= pre.hierarchy@.len(),
        forall|k: int| 0 <= k < pre.hierarchy@.len() ==> post.hierarchy@[k] == pre.hierarchy@[k],
        post.dependency@.len() >= pre.dependency@.len(),
        forall|k: int| 0 <= k < pre.dependency@.len() ==> post.dependency@[k] == pre.dependency@[k],
        post.ambiguities@.len() >= pre.ambiguities@.len(),
        forall|k: int| 0 <= k < pre.ambiguities@.len() ==> post.ambiguities@[k] == pre.ambiguities@[k],
    ensures
        post.ts_present(n0, cfg, k2),
        forall|tj: int| 0 <= tj < nin ==> #[trigger] post.inset_present(n0, cfg, k2, tj),
        forall|tj: int| 0 <= tj < nb ==> #[trigger] post.before_present(n0, cfg, k2, tj),
        forall|tj: int| 0 <= tj < na ==> #[trigger] post.after_present(n0, cfg, k2, tj),
        forall|tj: int| 0 <= tj < nw ==> #[trigger] post.amb_present(n0, cfg, k2, tj),
{
    lemma_ts_present_stable(pre, post, n0, cfg, k2);
    assert forall|tj: int| 0 <= tj < nin implies #[trigger] post.inset_present(n0, cfg, k2, tj) by {
        assert(pre.inset_present(n0, cfg, k2, tj));
        lemma_inset_present_stable(pre, post, n0, cfg, k2, tj);
    }
    assert forall|tj: int| 0 <= tj < nb implies #[trigger] post.before_present(n0, cfg, k2, tj) by {
        assert(pre.before_present(n0, cfg, k2, tj));
        lemma_before_present_stable(pre, post, n0, cfg, k2, tj);
    }
    assert forall|tj: int| 0 <= tj < na implies #[trigger] post.after_present(n0, cfg, k2, tj) by {
        assert(pre.after_present(n0, cfg, k2, tj));
        lemma_after_present_stable(pre, post, n0, cfg, k2, tj);
    }
    assert forall|tj: int| 0 <= tj < nw implies #[trigger] post.amb_present(n0, cfg, k2, tj) by {
        assert(pre.amb_present(n0, cfg, k2, tj));
        lemma_amb_present_stable(pre, post, n0, cfg, k2, tj);
    }
}

impl Schedule {
    /// An appended hierarchy edge of `configure_set`: the subject inside one
    /// of its asked-for named sets.
    pub open spec fn sc_hier_edge_ok(self, j: usize, cfg: SetConfig, e: (usize, usize)) -> bool {
        e.0 == j && exists|ti: int|
            0 <= ti < cfg.in_sets@.len() && self.set_has_kind(
                e.1 as int,
                SetKind::Named(#[trigger] cfg.in_sets@[ti]),
            )
    }

    /// An appended dependency edge of `configure_set`: the subject before one
    /// of its `before` targets, or after one of its `after` targets.
    pub open spec fn sc_dep_edge_ok(self, j: usize, cfg: SetConfig, e: (usize, usize)) -> bool {
        ||| (e.0 == j && exists|ti: int|
            0 <= ti < cfg.before@.len() && self.resolves(#[trigger] cfg.before@[ti], e.1 as int))
        ||| (e.1 == j && exists|ti: int|
            0 <= ti < cfg.after@.len() && self.resolves(#[trigger] cfg.after@[ti], e.0 as int))
    }

    /// An appended whitelist pair of `configure_set`.
    pub open spec fn sc_amb_edge_ok(self, j: usize, cfg: SetConfig, e: (usize, usize)) -> bool {
        e.0 == j && exists|ti: int|
            0 <= ti < cfg.ambiguous_with@.len() && self.resolves(
                #[trigger] cfg.ambiguous_with@[ti],
                e.1 as int,
            )
    }

    /// The arena after configuring set `j` over the arena `base`: every other
    /// old slot is untouched, the subject keeps its identity with `appended`
    /// joined onto its conditions, and every new slot is a set.
    pub open spec fn sc_nodes_frame(
        self,
        base: Seq<NodeEntry>,
        j: usize,
        appended: Seq<Condition>,
    ) -> bool {
        &&& self.nodes@.len() >= base.len()
        &&& (j as int) < self.nodes@.len()
        &&& forall|i: int| 0 <= i < base.len() && i != j ==> self.nodes@[i] == base[i]
        &&& forall|i: int| base.len() <= i < self.nodes@.len() ==> self.is_set_node(i)
        &&& if (j as int) < base.len() {
            base[j as int] is SystemSet && self.set_entry(j as int).kind == base[
                j as int
            ]->SystemSet_0.kind && self.set_entry(j as int).conditions@ == base[
                j as int
            ]->SystemSet_0.conditions@ + appended
        } else {
            self.set_entry(j as int).conditions@ == appended
        }
    }

    /// The edge lists after configuring set `j`: the old entries are kept,
    /// and every appended entry is one of the subject's asked-for
    /// memberships, orderings or whitelist pairs.
    pub open spec fn sc_edges_frame(
        self,
        base_h: Seq<(usize, usize)>,
        base_d: Seq<(usize, usize)>,
        base_a: Seq<(usize, usize)>,
        j: usize,
        cfg: SetConfig,
    ) -> bool {
        &&& self.hierarchy@.len() >= base_h.len()
        &&& forall|k: int| 0 <= k < base_h.len() ==> self.hierarchy@[k] == base_h[k]
        &&& forall|k: int|
            base_h.len() <= k < self.hierarchy@.len() ==> self.sc_hier_edge_ok(
                j,
                cfg,
                #[trigger] self.hierarchy@[k],
            )
        &&& self.dependency@.len() >= base_d.len()
        &&& forall|k: int| 0 <= k < base_d.len() ==> self.dependency@[k] == base_d[k]
        &&& forall|k: int|
            base_d.len() <= k < self.dependency@.len() ==> self.sc_dep_edge_ok(
                j,
                cfg,
                #[trigger] self.dependency@[k],
            )
        &&& self.ambiguities@.len() >= base_a.len()
        &&& forall|k: int| 0 <= k < base_a.len() ==> self.ambiguities@[k] == base_a[k]
        &&& forall|k: int|
            base_a.len() <= k < self.ambiguities@.len() ==> self.sc_amb_edge_ok(
                j,
                cfg,
                #[trigger] self.ambiguities@[k],
            )
    }

    /// Set `j` sits inside the named set `keys[ti]`.
    pub open spec fn sc_inset_present(self, j: usize, keys: Seq<u64>, ti: int) -> bool {
        exists|p: usize|
            self.set_has_kind(p as int, SetKind::Named(keys[ti])) && self.hierarchy@.contains(
                (j, p),
            )
    }

    /// Set `j` runs before the resolved target `ts[ti]`.
    pub open spec fn sc_before_present(self, j: usize, ts: Seq<OrderTarget>, ti: int) -> bool {
        exists|p: usize|
            self.resolves(ts[ti], p as int) && self.dependency@.contains((j, p))
    }

    /// Set `j` runs after the resolved target `ts[ti]`.
    pub open spec fn sc_after_present(self, j: usize, ts: Seq<OrderTarget>, ti: int) -> bool {
        exists|p: usize|
            self.resolves(ts[ti], p as int) && self.dependency@.contains((p, j))
    }

    /// Set `j` is whitelisted against the resolved target `ts[ti]`.
    pub open spec fn sc_amb_present(self, j: usize, ts: Seq<OrderTarget>, ti: int) -> bool {
        exists|p: usize|
            self.resolves(ts[ti], p as int) && self.ambiguities@.contains((j, p))
    }

    /// Everything the set configuration asks for is present afterwards.
    pub open spec fn set_config_present(self, j: usize, cfg: SetConfig) -> bool {
        &&& self.set_has_kind(j as int, SetKind::Named(cfg.key))
        &&& forall|ti: int|
            0 <= ti < cfg.in_sets@.len() ==> #[trigger] self.sc_inset_present(j, cfg.in_sets@, ti)
        &&& forall|ti: int|
            0 <= ti < cfg.before@.len() ==> #[trigger] self.sc_before_present(j, cfg.before@, ti)
        &&& forall|ti: int|
            0 <= ti < cfg.after@.len() ==> #[trigger] self.sc_after_present(j, cfg.after@, ti)
        &&& forall|ti: int|
            0 <= ti < cfg.ambiguous_with@.len() ==> #[trigger] self.sc_amb_present(
                j,
                cfg.ambiguous_with@,
                ti,
            )
    }

    /// Some set carries everything this configuration asks for.
    pub open spec fn config_recorded(self, cfg: SetConfig) -> bool {
        exists|j: usize| self.set_config_present(j, cfg)
    }

    /// Configures the named set: interns it, appends its run conditions, and
    /// records its memberships, orderings and whitelist pairs.
    #[verifier::loop_isolation(false)]
    #[verifier::rlimit(60)]
    pub fn configure_set(&mut self, cfg: SetConfig)
        requires
            old(self).wf(),
        ensures
            final(self).wf(),
            (final(self).plan is None),
            // The asked-for set exists with everything the configuration
            // carries, nothing else was touched, and every appended edge is
            // one of the asked-for ones.
            exists|j: usize|
                #[trigger] final(self).set_config_present(j, cfg) && final(self).sc_nodes_frame(
                    old(self).nodes@,
                    j,
                    cfg.conditions@,
                ) && final(self).sc_edges_frame(
                    old(self).hierarchy@,
                    old(self).dependency@,
                    old(self).ambiguities@,
                    j,
                    cfg,
                ),
            final(self).settings == old(self).settings,
    {
        self.plan = None;
        let SetConfig { key, in_sets, before, after, ambiguous_with, conditions } = cfg;
        let j = self.intern_set(SetKind::Named(key));
        proof {
            assert(self.sc_nodes_frame(old(self).nodes@, j, Seq::<Condition>::empty())) by {
                if (j as int) < old(self).nodes@.len() {
                    assert(self.nodes@[j as int] == old(self).nodes@[j as int]);
                    assert(self.set_entry(j as int).conditions@ =~= old(self).nodes@[j as int]
                        ->SystemSet_0.conditions@ + Seq::<Condition>::empty());
                } else {
                    assert(self.set_entry(j as int).conditions@ =~= Seq::<Condition>::empty());
                }
            }
            assert(self.sc_edges_frame(
                old(self).hierarchy@,
                old(self).dependency@,
                old(self).ambiguities@,
                j,
                cfg,
            ));
        }
        // Append the run conditions onto the set entry.
        let mut conds = conditions;
        proof {
            assert(conds@.take(0) =~= Seq::<Condition>::empty());
        }
        let mut ci: usize = 0;
        let clen = conds.len();
        while ci < clen
            invariant
                self.wf(),
                (self.plan is None),
                self.settings == old(self).settings,
                j < self.nodes@.len(),
                self.set_has_kind(j as int, SetKind::Named(key)),
                ci <= clen,
                clen == conds@.len(),
                self.sc_nodes_frame(old(self).nodes@, j, conds@.take(ci as int)),
                self.sc_edges_frame(
                    old(self).hierarchy@,
                    old(self).dependency@,
                    old(self).ambiguities@,
                    j,
                    cfg,
                ),
                conds@ == cfg.conditions@,
            decreases clen - ci,
        {
            let c = conds[ci];
            let ghost pre = *self;
            match &mut self.nodes[j] {
                NodeEntry::SystemSet(entry) => {
                    entry.conditions.push(c);
                },
                NodeEntry::System(_) => {
                    proof {
                        assert(false);
                    }
                },
            }
            proof {
                assert forall|j1: int, j2: int|
                    0 <= j1 < self.nodes@.len() && 0 <= j2 < self.nodes@.len() && j1 != j2 && (
                #[trigger] self.nodes@[j1]) is SystemSet && (#[trigger] self.nodes@[j2])
                    is SystemSet implies !identities_clash(
                    self.nodes@[j1]->SystemSet_0.kind,
                    self.nodes@[j2]->SystemSet_0.kind,
                ) by {
                    assert(pre.nodes@[j1] is SystemSet && pre.nodes@[j2] is SystemSet);
                    assert(pre.nodes@[j1]->SystemSet_0.kind == self.nodes@[j1]->SystemSet_0.kind);
                    assert(pre.nodes@[j2]->SystemSet_0.kind == self.nodes@[j2]->SystemSet_0.kind);
                }
                assert(self.sc_nodes_frame(old(self).nodes@, j, conds@.take(ci + 1))) by {
                    assert forall|i: int|
                        0 <= i < old(self).nodes@.len() && i != j implies self.nodes@[i] == old(
                        self,
                    ).nodes@[i] by {
                        assert(self.nodes@[i] == pre.nodes@[i]);
                    }
                    assert forall|i: int|
                        old(self).nodes@.len() <= i < self.nodes@.len() implies self.is_set_node(
                        i,
                    ) by {
                        if i != j {
                            assert(self.nodes@[i] == pre.nodes@[i]);
                            assert(pre.is_set_node(i));
                        }
                    }
                    assert(self.set_entry(j as int).conditions@ =~= pre.set_entry(
                        j as int,
                    ).conditions@.push(conds@[ci as int]));
                    assert(conds@.take(ci + 1) =~= conds@.take(ci as int).push(conds@[ci as int]));
                    if (j as int) < old(self).nodes@.len() {
                        assert(self.set_entry(j as int).conditions@ =~= old(self).nodes@[j as int]
                            ->SystemSet_0.conditions@ + conds@.take(ci + 1));
                    } else {
                        assert(self.set_entry(j as int).conditions@ =~= conds@.take(ci + 1));
                    }
                }
                assert forall|i: int|
                    0 <= i < pre.nodes@.len() implies set_kind_preserved(
                    #[trigger] pre.nodes@[i],
                    self.nodes@[i],
                ) by {}
                lemma_sc_edges_stable(
                    pre,
                    *self,
                    old(self).hierarchy@,
                    old(self).dependency@,
                    old(self).ambiguities@,
                    j,
                    cfg,
                );
            }
            ci = ci + 1;
        }
        proof {
            assert(conds@.take(clen as int) =~= cfg.conditions@);
        }
        // Memberships.
        let mut ti: usize = 0;
        while ti < in_sets.len()
            invariant
                self.wf(),
                (self.plan is None),
                self.settings == old(self).settings,
                j < self.nodes@.len(),
                self.set_has_kind(j as int, SetKind::Named(key)),
                ti <= in_sets@.len(),
                in_sets@ == cfg.in_sets@,
                forall|tj: int| 0 <= tj < ti ==> #[trigger] self.sc_inset_present(j, in_sets@, tj),
                self.sc_nodes_frame(old(self).nodes@, j, cfg.conditions@),
                self.sc_edges_frame(
                    old(self).hierarchy@,
                    old(self).dependency@,
                    old(self).ambiguities@,
                    j,
                    cfg,
                ),
            decreases in_sets@.len() - ti,
        {
            let ghost pre = *self;
            let p = self.intern_set(SetKind::Named(in_sets[ti]));
            self.hierarchy.push((j, p));
            proof {
                assert(self.hierarchy@[self.hierarchy@.len() - 1] == (j, p));
                assert forall|tj: int|
                    0 <= tj < ti + 1 implies #[trigger] self.sc_inset_present(j, in_sets@, tj) by {
                    if tj < ti {
                        assert(pre.sc_inset_present(j, in_sets@, tj));
                        let q = choose|q: usize|
                            pre.set_has_kind(q as int, SetKind::Named(in_sets@[tj]))
                                && pre.hierarchy@.contains((j, q));
                        assert(self.nodes@[q as int] == pre.nodes@[q as int]);
                        lemma_contains_stable(pre.hierarchy@, self.hierarchy@, (j, q));
                        assert(self.set_has_kind(q as int, SetKind::Named(in_sets@[tj])));
                    } else {
                        assert(self.set_has_kind(p as int, SetKind::Named(in_sets@[tj])));
                        assert(self.hierarchy@.contains((j, p)));
                    }
                }
                assert(self.sc_hier_edge_ok(j, cfg, (j, p))) by {
                    assert(self.set_has_kind(p as int, SetKind::Named(cfg.in_sets@[ti as int])));
                }
                assert forall|i2: int|
                    0 <= i2 < pre.nodes@.len() implies set_kind_preserved(
                    #[trigger] pre.nodes@[i2],
                    self.nodes@[i2],
                ) by {
                    assert(self.nodes@[i2] == pre.nodes@[i2]);
                }
                assert forall|i2: int|
                    pre.nodes@.len() <= i2 < self.nodes@.len() implies self.is_set_node(i2) by {
                    assert(i2 == p as int);
                }
                lemma_sc_nodes_stable(pre, *self, old(self).nodes@, j, cfg.conditions@);
                lemma_sc_edges_stable(
                    pre,
                    *self,
                    old(self).hierarchy@,
                    old(self).dependency@,
                    old(self).ambiguities@,
                    j,
                    cfg,
                );
            }
            ti = ti + 1;
        }
        // Orderings and whitelist pairs.
        let mut tb: usize = 0;
        while tb < before.len()
            invariant
                self.wf(),
                (self.plan is None),
                self.settings == old(self).settings,
                j < self.nodes@.len(),
                self.set_has_kind(j as int, SetKind::Named(key)),
                tb <= before@.len(),
                before@ == cfg.before@,
                forall|tj: int|
                    0 <= tj < ti as int ==> #[trigger] self.sc_inset_present(j, in_sets@, tj),
                ti == in_sets@.len(),
                forall|tj: int| 0 <= tj < tb ==> #[trigger] self.sc_before_present(j, before@, tj),
                self.sc_nodes_frame(old(self).nodes@, j, cfg.conditions@),
                self.sc_edges_frame(
                    old(self).hierarchy@,
                    old(self).dependency@,
                    old(self).ambiguities@,
                    j,
                    cfg,
                ),
            decreases before@.len() - tb,
        {
            let ghost pre = *self;
            let p = self.intern_target(&before[tb]);
            let ghost mid = *self;
            self.dependency.push((j, p));
            proof {
                assert(self.dependency@[self.dependency@.len() - 1] == (j, p));
                assert forall|tj: int|
                    0 <= tj < ti as int implies #[trigger] self.sc_inset_present(
                    j,
                    in_sets@,
                    tj,
                ) by {
                    assert(pre.sc_inset_present(j, in_sets@, tj));
                    let q = choose|q: usize|
                        pre.set_has_kind(q as int, SetKind::Named(in_sets@[tj]))
                            && pre.hierarchy@.contains((j, q));
                    assert(self.nodes@[q as int] == pre.nodes@[q as int]);
                    lemma_contains_stable(pre.hierarchy@, self.hierarchy@, (j, q));
                    assert(self.set_has_kind(q as int, SetKind::Named(in_sets@[tj])));
                }
                assert forall|tj: int|
                    0 <= tj < tb + 1 implies #[trigger] self.sc_before_present(
                    j,
                    before@,
                    tj,
                ) by {
                    if tj < tb {
                        assert(pre.sc_before_present(j, before@, tj));
                        let q = choose|q: usize|
                            pre.resolves(before@[tj], q as int) && pre.dependency@.contains((j, q));
                        lemma_resolve_stable(pre, *self, before@[tj], q as int);
                        lemma_contains_stable(pre.dependency@, self.dependency@, (j, q));
                    } else {
                        assert(self.resolves(before@[tj], p as int));
                        assert(self.dependency@.contains((j, p)));
                    }
                }
                assert(self.sc_dep_edge_ok(j, cfg, (j, p))) by {
                    assert(self.resolves(cfg.before@[tb as int], p as int));
                }
                assert forall|i2: int|
                    0 <= i2 < pre.nodes@.len() implies set_kind_preserved(
                    #[trigger] pre.nodes@[i2],
                    self.nodes@[i2],
                ) by {
                    assert(self.nodes@[i2] == pre.nodes@[i2]);
                }
                assert forall|i2: int|
                    pre.nodes@.len() <= i2 < self.nodes@.len() implies self.is_set_node(i2) by {
                    assert(mid.is_set_node(i2));
                    assert(self.nodes@[i2] == mid.nodes@[i2]);
                }
                lemma_sc_nodes_stable(pre, *self, old(self).nodes@, j, cfg.conditions@);
                lemma_sc_edges_stable(
                    pre,
                    *self,
                    old(self).hierarchy@,
                    old(self).dependency@,
                    old(self).ambiguities@,
                    j,
                    cfg,
                );
            }
            tb = tb + 1;
        }
        let mut ta: usize = 0;
        while ta < after.len()
            invariant
                self.wf(),
                (self.plan is None),
                self.settings == old(self).settings,
                j < self.nodes@.len(),
                self.set_has_kind(j as int, SetKind::Named(key)),
                ta <= after@.len(),
                after@ == cfg.after@,
                forall|tj: int|
                    0 <= tj < ti as int ==> #[trigger] self.sc_inset_present(j, in_sets@, tj),
                ti == in_sets@.len(),
                forall|tj: int|
                    0 <= tj < tb as int ==> #[trigger] self.sc_before_present(j, before@, tj),
                tb == before@.len(),
                forall|tj: int| 0 <= tj < ta ==> #[trigger] self.sc_after_present(j, after@, tj),
                self.sc_nodes_frame(old(self).nodes@, j, cfg.conditions@),
                self.sc_edges_frame(
                    old(self).hierarchy@,
                    old(self).dependency@,
                    old(self).ambiguities@,
                    j,
                    cfg,
                ),
            decreases after@.len() - ta,
        {
            let ghost pre = *self;
            let p = self.intern_target(&after[ta]);
            let ghost mid = *self;
            self.dependency.push((p, j));
            proof {
                assert(self.dependency@[self.dependency@.len() - 1] == (p, j));
                assert forall|tj: int|
                    0 <= tj < ti as int implies #[trigger] self.sc_inset_present(
                    j,
                    in_sets@,
                    tj,
                ) by {
                    assert(pre.sc_inset_present(j, in_sets@, tj));
                    let q = choose|q: usize|
                        pre.set_has_kind(q as int, SetKind::Named(in_sets@[tj]))
                            && pre.hierarchy@.contains((j, q));
                    assert(self.nodes@[q as int] == pre.nodes@[q as int]);
                    lemma_contains_stable(pre.hierarchy@, self.hierarchy@, (j, q));
                    assert(self.set_has_kind(q as int, SetKind::Named(in_sets@[tj])));
                }
                assert forall|tj: int|
                    0 <= tj < tb as int implies #[trigger] self.sc_before_present(
                    j,
                    before@,
                    tj,
                ) by {
                    assert(pre.sc_before_present(j, before@, tj));
                    let q = choose|q: usize|
                        pre.resolves(before@[tj], q as int) && pre.dependency@.contains((j, q));
                    lemma_resolve_stable(pre, *self, before@[tj], q as int);
                    lemma_contains_stable(pre.dependency@, self.dependency@, (j, q));
                }
                assert forall|tj: int|
                    0 <= tj < ta + 1 implies #[trigger] self.sc_after_present(j, after@, tj) by {
                    if tj < ta {
                        assert(pre.sc_after_present(j, after@, tj));
                        let q = choose|q: usize|
                            pre.resolves(after@[tj], q as int) && pre.dependency@.contains((q, j));
                        lemma_resolve_stable(pre, *self, after@[tj], q as int);
                        lemma_contains_stable(pre.dependency@, self.dependency@, (q, j));
                    } else {
                        assert(self.resolves(after@[tj], p as int));
                        assert(self.dependency@.contains((p, j)));
                    }
                }
                assert(self.sc_dep_edge_ok(j, cfg, (p, j))) by {
                    assert(self.resolves(cfg.after@[ta as int], p as int));
                }
                assert forall|i2: int|
                    0 <= i2 < pre.nodes@.len() implies set_kind_preserved(
                    #[trigger] pre.nodes@[i2],
                    self.nodes@[i2],
                ) by {
                    assert(self.nodes@[i2] == pre.nodes@[i2]);
                }
                assert forall|i2: int|
                    pre.nodes@.len() <= i2 < self.nodes@.len() implies self.is_set_node(i2) by {
                    assert(mid.is_set_node(i2));
                    assert(self.nodes@[i2] == mid.nodes@[i2]);
                }
                lemma_sc_nodes_stable(pre, *self, old(self).nodes@, j, cfg.conditions@);
                lemma_sc_edges_stable(
                    pre,
                    *self,
                    old(self).hierarchy@,
                    old(self).dependency@,
                    old(self).ambiguities@,
                    j,
                    cfg,
                );
            }
            ta = ta + 1;
        }
        let mut tw: usize = 0;
        while tw < ambiguous_with.len()
            invariant
                self.wf(),
                (self.plan is None),
                self.settings == old(self).settings,
                j < self.nodes@.len(),
                self.set_has_kind(j as int, SetKind::Named(key)),
                tw <= ambiguous_with@.len(),
                ambiguous_with@ == cfg.ambiguous_with@,
                forall|tj: int|
                    0 <= tj < ti as int ==> #[trigger] self.sc_inset_present(j, in_sets@, tj),
                ti == in_sets@.len(),
                forall|tj: int|
                    0 <= tj < tb as int ==> #[trigger] self.sc_before_present(j, before@, tj),
                tb == before@.len(),
                forall|tj: int|
                    0 <= tj < ta as int ==> #[trigger] self.sc_after_present(j, after@, tj),
                ta == after@.len(),
                forall|tj: int|
                    0 <= tj < tw ==> #[trigger] self.sc_amb_present(j, ambiguous_with@, tj),
                self.sc_nodes_frame(old(self).nodes@, j, cfg.conditions@),
                self.sc_edges_frame(
                    old(self).hierarchy@,
                    old(self).dependency@,
                    old(self).ambiguities@,
                    j,
                    cfg,
                ),
            decreases ambiguous_with@.len() - tw,
        {
            let ghost pre = *self;
            let p = self.intern_target(&ambiguous_with[tw]);
            let ghost mid = *self;
            self.ambiguities.push((j, p));
            proof {
                assert(self.ambiguities@[self.ambiguities@.len() - 1] == (j, p));
                assert forall|tj: int|
                    0 <= tj < ti as int implies #[trigger] self.sc_inset_present(
                    j,
                    in_sets@,
                    tj,
                ) by {
                    assert(pre.sc_inset_present(j, in_sets@, tj));
                    let q = choose|q: usize|
                        pre.set_has_kind(q as int, SetKind::Named(in_sets@[tj]))
                            && pre.hierarchy@.contains((j, q));
                    assert(self.nodes@[q as int] == pre.nodes@[q as int]);
                    lemma_contains_stable(pre.hierarchy@, self.hierarchy@, (j, q));
                    assert(self.set_has_kind(q as int, SetKind::Named(in_sets@[tj])));
                }
                assert forall|tj: int|
                    0 <= tj < tb as int implies #[trigger] self.sc_before_present(
                    j,
                    before@,
                    tj,
                ) by {
                    assert(pre.sc_before_present(j, before@, tj));
                    let q = choose|q: usize|
                        pre.resolves(before@[tj], q as int) && pre.dependency@.contains((j, q));
                    lemma_resolve_stable(pre, *self, before@[tj], q as int);
                    lemma_contains_stable(pre.dependency@, self.dependency@, (j, q));
                }
                assert forall|tj: int|
                    0 <= tj < ta as int implies #[trigger] self.sc_after_present(
                    j,
                    after@,
                    tj,
                ) by {
                    assert(pre.sc_after_present(j, after@, tj));
                    let q = choose|q: usize|
                        pre.resolves(after@[tj], q as int) && pre.dependency@.contains((q, j));
                    lemma_resolve_stable(pre, *self, after@[tj], q as int);
                    lemma_contains_stable(pre.dependency@, self.dependency@, (q, j));
                }
                assert forall|tj: int|
                    0 <= tj < tw + 1 implies #[trigger] self.sc_amb_present(
                    j,
                    ambiguous_with@,
                    tj,
                ) by {
                    if tj < tw {
                        assert(pre.sc_amb_present(j, ambiguous_with@, tj));
                        let q = choose|q: usize|
                            pre.resolves(ambiguous_with@[tj], q as int) && pre.ambiguities@.contains(
                                (j, q),
                            );
                        lemma_resolve_stable(pre, *self, ambiguous_with@[tj], q as int);
                        lemma_contains_stable(pre.ambiguities@, self.ambiguities@, (j, q));
                    } else {
                        assert(self.resolves(ambiguous_with@[tj], p as int));
                        assert(self.ambiguities@.contains((j, p)));
                    }
                }
                assert(self.sc_amb_edge_ok(j, cfg, (j, p))) by {
                    assert(self.resolves(cfg.ambiguous_with@[tw as int], p as int));
                }
                assert forall|i2: int|
                    0 <= i2 < pre.nodes@.len() implies set_kind_preserved(
                    #[trigger] pre.nodes@[i2],
                    self.nodes@[i2],
                ) by {
                    assert(self.nodes@[i2] == pre.nodes@[i2]);
                }
                assert forall|i2: int|
                    pre.nodes@.len() <= i2 < self.nodes@.len() implies self.is_set_node(i2) by {
                    assert(mid.is_set_node(i2));
                    assert(self.nodes@[i2] == mid.nodes@[i2]);
                }
                lemma_sc_nodes_stable(pre, *self, old(self).nodes@, j, cfg.conditions@);
                lemma_sc_edges_stable(
                    pre,
                    *self,
                    old(self).hierarchy@,
                    old(self).dependency@,
                    old(self).ambiguities@,
                    j,
                    cfg,
                );
            }
            tw = tw + 1;
        }
        proof {
            assert(self.set_config_present(j, cfg));
        }
    }

    /// Configures several sets at once: each configuration in the list is
    /// applied as by [`Schedule::configure_set`], in order, and everything an
    /// earlier one recorded is kept by the later ones.
    #[verifier::loop_isolation(false)]
    pub fn configure_sets(&mut self, cfgs: Vec<SetConfig>)
        requires
            old(self).wf(),
        ensures
            final(self).wf(),
            cfgs@.len() > 0 ==> (final(self).plan is None),
            forall|ci: int|
                0 <= ci < cfgs@.len() ==> #[trigger] final(self).config_recorded(cfgs@[ci]),
            final(self).settings == old(self).settings,
    {
        let ghost cview = cfgs@;
        let mut rest = cfgs;
        let ghost mut done: int = 0;
        while rest.len() > 0
            invariant
                self.wf(),
                self.settings == old(self).settings,
                0 <= done,
                done + rest@.len() == cview.len(),
                rest@ == cview.subrange(done, cview.len() as int),
                done > 0 ==> (self.plan is None),
                forall|ci: int|
                    0 <= ci < done ==> #[trigger] self.config_recorded(cview[ci]),
            decreases rest@.len(),
        {
            let cfg = rest.remove(0);
            proof {
                assert(cfg == cview[done]);
                assert(rest@ =~= cview.subrange(done + 1, cview.len() as int));
            }
            let ghost pre = *self;
            self.configure_set(cfg);
            proof {
                let j_new = choose|j: usize|
                    #[trigger] self.set_config_present(j, cfg) && self.sc_nodes_frame(
                        pre.nodes@,
                        j,
                        cfg.conditions@,
                    ) && self.sc_edges_frame(
                        pre.hierarchy@,
                        pre.dependency@,
                        pre.ambiguities@,
                        j,
                        cfg,
                    );
                assert forall|ci: int|
                    0 <= ci < done + 1 implies #[trigger] self.config_recorded(cview[ci]) by {
                    if ci < done {
                        assert(pre.config_recorded(cview[ci]));
                        let j_old = choose|j: usize| pre.set_config_present(j, cview[ci]);
                        assert forall|i2: int|
                            0 <= i2 < pre.nodes@.len() implies set_kind_preserved(
                            #[trigger] pre.nodes@[i2],
                            self.nodes@[i2],
                        ) by {
                            if i2 != j_new {
                                assert(self.nodes@[i2] == pre.nodes@[i2]);
                            } else {
                                assert(pre.nodes@[i2] is SystemSet);
                                assert(self.is_set_node(i2));
                                assert(self.set_entry(i2).kind == pre.nodes@[i2]
                                    ->SystemSet_0.kind);
                            }
                        }
                        lemma_set_config_present_stable(pre, *self, j_old, cview[ci]);
                        assert(self.set_config_present(j_old, cview[ci]));
                    } else {
                        assert(self.set_config_present(j_new, cview[ci]));
                    }
                }
                done = done + 1;
            }
        }
    }

    /// Removes every hierarchy, dependency and whitelist edge that touches
    /// the node, leaving the node itself in place.
    #[verifier::loop_isolation(false)]
    pub fn remove_node_edges(&mut self, node: usize)
        requires
            old(self).wf(),
        ensures
            final(self).wf(),
            (final(self).plan is None),
            final(self).nodes == old(self).nodes,
            final(self).hierarchy@ == old(self).hierarchy@.filter(
                |e: (usize, usize)| e.0 != node && e.1 != node,
            ),
            final(self).dependency@ == old(self).dependency@.filter(
                |e: (usize, usize)| e.0 != node && e.1 != node,
            ),
            final(self).ambiguities@ == old(self).ambiguities@.filter(
                |e: (usize, usize)| e.0 != node && e.1 != node,
            ),
            final(self).settings == old(self).settings,
    {
        self.plan = None;
        let hierarchy = filter_edges(&self.hierarchy, node);
        let dependency = filter_edges(&self.dependency, node);
        let ambiguities = filter_edges(&self.ambiguities, node);
        proof {
            lemma_filter_edges_wf(self.nodes@, self.hierarchy@, node);
            lemma_filter_edges_wf(self.nodes@, self.dependency@, node);
            lemma_filter_edges_wf(self.nodes@, self.ambiguities@, node);
        }
        self.hierarchy = hierarchy;
        self.dependency = dependency;
        self.ambiguities = ambiguities;
    }
}

/// Keeps the edges not touching `node`.
fn filter_edges(edges: &Vec<(usize, usize)>, node: usize) -> (r: Vec<(usize, usize)>)
    ensures
        r@ == edges@.filter(|e: (usize, usize)| e.0 != node && e.1 != node),
{
    let mut r: Vec<(usize, usize)> = Vec::new();
    let mut k: usize = 0;
    proof {
        reveal(Seq::filter);
        assert(r@ =~= edges@.subrange(0, 0).filter(|e: (usize, usize)| e.0 != node && e.1 != node));
    }
    while k < edges.len()
        invariant
            k <= edges@.len(),
            r@ == edges@.subrange(0, k as int).filter(
                |e: (usize, usize)| e.0 != node && e.1 != node,
            ),
        decreases edges@.len() - k,
    {
        let (a, b) = edges[k];
        let ghost prefix = edges@.subrange(0, k as int);
        if a != node && b != node {
            r.push((a, b));
        }
        proof {
            reveal(Seq::filter);
            let next = edges@.subrange(0, k + 1);
            assert(next.drop_last() =~= prefix);
            assert(next.last() == edges@[k as int]);
        }
        k = k + 1;
    }
    proof {
        assert(edges@.subrange(0, edges@.len() as int) =~= edges@);
    }
    r
}

/// Filtering edges keeps them well formed over the same arena.
proof fn lemma_filter_edges_wf(nodes: Seq<NodeEntry>, edges: Seq<(usize, usize)>, node: usize)
    ensures
        hierarchy_edges_ok(nodes, edges) ==> hierarchy_edges_ok(
            nodes,
            edges.filter(|e: (usize, usize)| e.0 != node && e.1 != node),
        ),
        edge_ends_ok(nodes, edges) ==> edge_ends_ok(
            nodes,
            edges.filter(|e: (usize, usize)| e.0 != node && e.1 != node),
        ),
{
    let pred = |e: (usize, usize)| e.0 != node && e.1 != node;
    let out = edges.filter(pred);
    assert forall|k: int| 0 <= k < out.len() implies edges.contains(#[trigger] out[k]) by {
        lemma_filter_element_of(edges, pred, k);
    }
    if hierarchy_edges_ok(nodes, edges) {
        assert forall|k: int|
            0 <= k < out.len() implies (#[trigger] out[k]).0 < nodes.len() && out[k].1
            < nodes.len() && nodes[out[k].1 as int] is SystemSet by {
            let e = out[k];
            let i = choose|i: int| 0 <= i < edges.len() && edges[i] == e;
        }
    }
    if edge_ends_ok(nodes, edges) {
        assert forall|k: int|
            0 <= k < out.len() implies (#[trigger] out[k]).0 < nodes.len() && out[k].1
            < nodes.len() by {
            let e = out[k];
            let i = choose|i: int| 0 <= i < edges.len() && edges[i] == e;
        }
    }
}

/// An element the filter kept was in the sequence.
proof fn lemma_filter_element_of(
    edges: Seq<(usize, usize)>,
    pred: spec_fn((usize, usize)) -> bool,
    k: int,
)
    requires
        0 <= k < edges.filter(pred).len(),
    ensures
        edges.contains(edges.filter(pred)[k]),
    decreases edges.len(),
{
    reveal(Seq::filter);
    if edges.len() > 0 {
        let sub = edges.drop_last().filter(pred);
        if k < sub.len() {
            lemma_filter_element_of(edges.drop_last(), pred, k);
            let e = sub[k];
            let i = choose|i: int| 0 <= i < edges.drop_last().len() && edges.drop_last()[i] == e;
            assert(edges[i] == e);
        } else {
            assert(edges.filter(pred)[k] == edges.last());
            assert(edges[edges.len() - 1] == edges.last());
        }
    }
}

/// Node lookups are stable when the arena only gains set slots at the end
/// and the edge lists only gain entries at the end.
proof fn lemma_predicates_stable(
    c0: Schedule,
    pre: Schedule,
    post: Schedule,
    cfg: SystemConfigs,
    n0: int,
    m: int,
)
    requires
        pre.config_nodes_added(c0, cfg),
        pre.config_edges_added(c0, cfg),
        pre.mods_present_upto(n0, cfg, m),
        n0 == c0.nodes@.len(),
        post.nodes@.len() >= pre.nodes@.len(),
        forall|i: int| 0 <= i < pre.nodes@.len() ==> post.nodes@[i] == pre.nodes@[i],
        forall|i: int| pre.nodes@.len() <= i < post.nodes@.len() ==> post.is_set_node(i),
        post.hierarchy@.len() >= pre.hierarchy@.len(),
        forall|k: int| 0 <= k < pre.hierarchy@.len() ==> post.hierarchy@[k] == pre.hierarchy@[k],
        forall|k: int|
            pre.hierarchy@.len() <= k < post.hierarchy@.len() ==> post.added_hier_edge_ok(
                n0,
                cfg,
                #[trigger] post.hierarchy@[k],
            ),
        post.dependency@.len() >= pre.dependency@.len(),
        forall|k: int| 0 <= k < pre.dependency@.len() ==> post.dependency@[k] == pre.dependency@[k],
        forall|k: int|
            pre.dependency@.len() <= k < post.dependency@.len() ==> post.added_dep_edge_ok(
                n0,
                cfg,
                #[trigger] post.dependency@[k],
            ),
        post.ambiguities@.len() >= pre.ambiguities@.len(),
        forall|k: int| 0 <= k < pre.ambiguities@.len() ==> post.ambiguities@[k] == pre.ambiguities@[k],
        forall|k: int|
            pre.ambiguities@.len() <= k < post.ambiguities@.len() ==> post.added_amb_edge_ok(
                n0,
                cfg,
                #[trigger] post.ambiguities@[k],
            ),
    ensures
        post.config_nodes_added(c0, cfg),
        post.config_edges_added(c0, cfg),
        post.mods_present_upto(n0, cfg, m),
{
    let l = leaves(cfg).len() as int;
    assert forall|kk: int| 0 <= kk < l implies post.is_system_node(n0 + kk) && (
    #[trigger] post.sys_node(n0 + kk)).desc == leaves(cfg)[kk].system && post.sys_node(
        n0 + kk,
    ).conditions == leaves(cfg)[kk].conditions by {
        let witness = pre.sys_node(n0 + kk);
        assert(pre.is_system_node(n0 + kk));
        assert(post.nodes@[n0 + kk] == pre.nodes@[n0 + kk]);
    }
    assert forall|i: int| 0 <= i < n0 implies post.nodes@[i] == c0.nodes@[i] by {
        assert(pre.nodes@[i] == c0.nodes@[i]);
    }
    assert forall|i: int| n0 + l <= i < post.nodes@.len() implies post.is_set_node(i) by {
        if i < pre.nodes@.len() {
            assert(pre.is_set_node(i));
            assert(post.nodes@[i] == pre.nodes@[i]);
        }
    }
    assert forall|k: int|
        c0.dependency@.len() <= k < pre.dependency@.len() implies post.added_dep_edge_ok(
        n0,
        cfg,
        #[trigger] post.dependency@[k],
    ) by {
        assert(pre.added_dep_edge_ok(n0, cfg, pre.dependency@[k]));
        lemma_dep_ok_stable(pre, post, n0, cfg, pre.dependency@[k]);
    }
    assert forall|k: int|
        c0.hierarchy@.len() <= k < pre.hierarchy@.len() implies post.added_hier_edge_ok(
        n0,
        cfg,
        #[trigger] post.hierarchy@[k],
    ) by {
        assert(pre.added_hier_edge_ok(n0, cfg, pre.hierarchy@[k]));
        lemma_hier_ok_stable(pre, post, n0, cfg, pre.hierarchy@[k]);
    }
    assert forall|k: int|
        c0.ambiguities@.len() <= k < pre.ambiguities@.len() implies post.added_amb_edge_ok(
        n0,
        cfg,
        #[trigger] post.ambiguities@[k],
    ) by {
        assert(pre.added_amb_edge_ok(n0, cfg, pre.ambiguities@[k]));
        lemma_amb_ok_stable(pre, post, n0, cfg, pre.ambiguities@[k]);
    }
    lemma_presence_stable(pre, post, n0, cfg, m);
}

/// Set lookups survive arena growth.
proof fn lemma_resolve_stable(pre: Schedule, post: Schedule, t: OrderTarget, j: int)
    requires
        pre.resolves(t, j),
        post.nodes@.len() >= pre.nodes@.len(),
        forall|i: int| 0 <= i < pre.nodes@.len() ==> post.nodes@[i] == pre.nodes@[i],
    ensures
        post.resolves(t, j),
{
    assert(post.nodes@[j] == pre.nodes@[j]);
}

/// A dependency-edge justification survives growth.
proof fn lemma_dep_ok_stable(
    pre: Schedule,
    post: Schedule,
    n0: int,
    cfg: SystemConfigs,
    e: (usize, usize),
)
    requires
        pre.added_dep_edge_ok(n0, cfg, e),
        post.nodes@.len() >= pre.nodes@.len(),
        forall|i: int| 0 <= i < pre.nodes@.len() ==> post.nodes@[i] == pre.nodes@[i],
    ensures
        post.added_dep_edge_ok(n0, cfg, e),
{
    if !chain_edges(cfg, 0).contains((e.0 - n0, e.1 - n0)) {
        if exists|k: int, ti: int|
            0 <= k < leaves(cfg).len() && e.0 == n0 + k && 0 <= ti < leaves(cfg)[k].before@.len()
                && pre.resolves(#[trigger] leaves(cfg)[k].before@[ti], e.1 as int) {
            let (k, ti) = choose|k: int, ti: int|
                0 <= k < leaves(cfg).len() && e.0 == n0 + k && 0 <= ti < leaves(
                    cfg,
                )[k].before@.len() && pre.resolves(
                    #[trigger] leaves(cfg)[k].before@[ti],
                    e.1 as int,
                );
            lemma_resolve_stable(pre, post, leaves(cfg)[k].before@[ti], e.1 as int);
        } else {
            let (k, ti) = choose|k: int, ti: int|
                0 <= k < leaves(cfg).len() && e.1 == n0 + k && 0 <= ti < leaves(
                    cfg,
                )[k].after@.len() && pre.resolves(
                    #[trigger] leaves(cfg)[k].after@[ti],
                    e.0 as int,
                );
            lemma_resolve_stable(pre, post, leaves(cfg)[k].after@[ti], e.0 as int);
        }
    }
}

/// A hierarchy-edge justification survives growth.
proof fn lemma_hier_ok_stable(
    pre: Schedule,
    post: Schedule,
    n0: int,
    cfg: SystemConfigs,
    e: (usize, usize),
)
    requires
        pre.added_hier_edge_ok(n0, cfg, e),
        post.nodes@.len() >= pre.nodes@.len(),
        forall|i: int| 0 <= i < pre.nodes@.len() ==> post.nodes@[i] == pre.nodes@[i],
    ensures
        post.added_hier_edge_ok(n0, cfg, e),
{
    assert(e.1 < pre.nodes@.len() ==> post.nodes@[e.1 as int] == pre.nodes@[e.1 as int]);
}

/// A whitelist-pair justification survives growth.
proof fn lemma_amb_ok_stable(
    pre: Schedule,
    post: Schedule,
    n0: int,
    cfg: SystemConfigs,
    e: (usize, usize),
)
    requires
        pre.added_amb_edge_ok(n0, cfg, e),
        post.nodes@.len() >= pre.nodes@.len(),
        forall|i: int| 0 <= i < pre.nodes@.len() ==> post.nodes@[i] == pre.nodes@[i],
    ensures
        post.added_amb_edge_ok(n0, cfg, e),
{
    let (k, ti) = choose|k: int, ti: int|
        0 <= k < leaves(cfg).len() && e.0 == n0 + k && 0 <= ti < leaves(
            cfg,
        )[k].ambiguous_with@.len() && pre.resolves(
            #[trigger] leaves(cfg)[k].ambiguous_with@[ti],
            e.1 as int,
        );
    lemma_resolve_stable(pre, post, leaves(cfg)[k].ambiguous_with@[ti], e.1 as int);
}

/// Presence facts survive growth of the arena and of the edge lists.
proof fn lemma_presence_stable(pre: Schedule, post: Schedule, n0: int, cfg: SystemConfigs, m: int)
    requires
        pre.mods_present_upto(n0, cfg, m),
        post.nodes@.len() >= pre.nodes@.len(),
        forall|i: int| 0 <= i < pre.nodes@.len() ==> post.nodes@[i] == pre.nodes@[i],
        post.hierarchy@.len() >= pre.hierarchy@.len(),
        forall|k: int| 0 <= k < pre.hierarchy@.len() ==> post.hierarchy@[k] == pre.hierarchy@[k],
        post.dependency@.len() >= pre.dependency@.len(),
        forall|k: int| 0 <= k < pre.dependency@.len() ==> post.dependency@[k] == pre.dependency@[k],
        post.ambiguities@.len() >= pre.ambiguities@.len(),
        forall|k: int| 0 <= k < pre.ambiguities@.len() ==> post.ambiguities@[k] == pre.ambiguities@[k],
    ensures
        post.mods_present_upto(n0, cfg, m),
{
    assert forall|kk: int| 0 <= kk < m implies #[trigger] post.ts_present(n0, cfg, kk) by {
        assert(pre.ts_present(n0, cfg, kk));
        lemma_ts_present_stable(pre, post, n0, cfg, kk);
    }
    assert forall|kk: int, ti: int|
        0 <= kk < m && 0 <= ti < leaves(cfg)[kk].in_sets@.len() implies #[trigger] post.inset_present(
        n0,
        cfg,
        kk,
        ti,
    ) by {
        assert(pre.inset_present(n0, cfg, kk, ti));
        lemma_inset_present_stable(pre, post, n0, cfg, kk, ti);
    }
    assert forall|kk: int, ti: int|
        0 <= kk < m && 0 <= ti < leaves(cfg)[kk].before@.len() implies #[trigger] post.before_present(
        n0,
        cfg,
        kk,
        ti,
    ) by {
        assert(pre.before_present(n0, cfg, kk, ti));
        lemma_before_present_stable(pre, post, n0, cfg, kk, ti);
    }
    assert forall|kk: int, ti: int|
        0 <= kk < m && 0 <= ti < leaves(cfg)[kk].after@.len() implies #[trigger] post.after_present(
        n0,
        cfg,
        kk,
        ti,
    ) by {
        assert(pre.after_present(n0, cfg, kk, ti));
        lemma_after_present_stable(pre, post, n0, cfg, kk, ti);
    }
    assert forall|kk: int, ti: int|
        0 <= kk < m && 0 <= ti < leaves(cfg)[kk].ambiguous_with@.len()
        implies #[trigger] post.amb_present(n0, cfg, kk, ti) by {
        assert(pre.amb_present(n0, cfg, kk, ti));
        lemma_amb_present_stable(pre, post, n0, cfg, kk, ti);
    }
}

/// A type-set membership fact survives growth.
proof fn lemma_ts_present_stable(pre: Schedule, post: Schedule, n0: int, cfg: SystemConfigs, kk: int)
    requires
        pre.ts_present(n0, cfg, kk),
        post.nodes@.len() >= pre.nodes@.len(),
        forall|i: int| 0 <= i < pre.nodes@.len() ==> post.nodes@[i] == pre.nodes@[i],
        post.hierarchy@.len() >= pre.hierarchy@.len(),
        forall|k: int| 0 <= k < pre.hierarchy@.len() ==> post.hierarchy@[k] == pre.hierarchy@[k],
    ensures
        post.ts_present(n0, cfg, kk),
{
    let j = choose|j: usize|
        pre.set_has_kind(j as int, SetKind::TypeSet(leaves(cfg)[kk].system.type_key))
            && pre.hierarchy@.contains(((n0 + kk) as usize, j));
    assert(post.nodes@[j as int] == pre.nodes@[j as int]);
    lemma_contains_stable(pre.hierarchy@, post.hierarchy@, ((n0 + kk) as usize, j));
    assert(post.set_has_kind(j as int, SetKind::TypeSet(leaves(cfg)[kk].system.type_key)));
    assert(post.hierarchy@.contains(((n0 + kk) as usize, j)));
}

/// A named-set membership fact survives growth.
proof fn lemma_inset_present_stable(
    pre: Schedule,
    post: Schedule,
    n0: int,
    cfg: SystemConfigs,
    kk: int,
    ti: int,
)
    requires
        pre.inset_present(n0, cfg, kk, ti),
        post.nodes@.len() >= pre.nodes@.len(),
        forall|i: int| 0 <= i < pre.nodes@.len() ==> post.nodes@[i] == pre.nodes@[i],
        post.hierarchy@.len() >= pre.hierarchy@.len(),
        forall|k: int| 0 <= k < pre.hierarchy@.len() ==> post.hierarchy@[k] == pre.hierarchy@[k],
    ensures
        post.inset_present(n0, cfg, kk, ti),
{
    let j = choose|j: usize|
        pre.set_has_kind(j as int, SetKind::Named(leaves(cfg)[kk].in_sets@[ti]))
            && pre.hierarchy@.contains(((n0 + kk) as usize, j));
    assert(post.nodes@[j as int] == pre.nodes@[j as int]);
    lemma_contains_stable(pre.hierarchy@, post.hierarchy@, ((n0 + kk) as usize, j));
    assert(post.set_has_kind(j as int, SetKind::Named(leaves(cfg)[kk].in_sets@[ti])));
    assert(post.hierarchy@.contains(((n0 + kk) as usize, j)));
}

/// A `before` ordering fact survives growth.
proof fn lemma_before_present_stable(
    pre: Schedule,
    post: Schedule,
    n0: int,
    cfg: SystemConfigs,
    kk: int,
    ti: int,
)
    requires
        pre.before_present(n0, cfg, kk, ti),
        post.nodes@.len() >= pre.nodes@.len(),
        forall|i: int| 0 <= i < pre.nodes@.len() ==> post.nodes@[i] == pre.nodes@[i],
        post.dependency@.len() >= pre.dependency@.len(),
        forall|k: int| 0 <= k < pre.dependency@.len() ==> post.dependency@[k] == pre.dependency@[k],
    ensures
        post.before_present(n0, cfg, kk, ti),
{
    let j = choose|j: usize|
        pre.resolves(leaves(cfg)[kk].before@[ti], j as int) && pre.dependency@.contains(
            ((n0 + kk) as usize, j),
        );
    lemma_resolve_stable(pre, post, leaves(cfg)[kk].before@[ti], j as int);
    lemma_contains_stable(pre.dependency@, post.dependency@, ((n0 + kk) as usize, j));
    assert(post.resolves(leaves(cfg)[kk].before@[ti], j as int));
    assert(post.dependency@.contains(((n0 + kk) as usize, j)));
}

/// An `after` ordering fact survives growth.
proof fn lemma_after_present_stable(
    pre: Schedule,
    post: Schedule,
    n0: int,
    cfg: SystemConfigs,
    kk: int,
    ti: int,
)
    requires
        pre.after_present(n0, cfg, kk, ti),
        post.nodes@.len() >= pre.nodes@.len(),
        forall|i: int| 0 <= i < pre.nodes@.len() ==> post.nodes@[i] == pre.nodes@[i],
        post.dependency@.len() >= pre.dependency@.len(),
        forall|k: int| 0 <= k < pre.dependency@.len() ==> post.dependency@[k] == pre.dependency@[k],
    ensures
        post.after_present(n0, cfg, kk, ti),
{
    let j = choose|j: usize|
        pre.resolves(leaves(cfg)[kk].after@[ti], j as int) && pre.dependency@.contains(
            (j, (n0 + kk) as usize),
        );
    lemma_resolve_stable(pre, post, leaves(cfg)[kk].after@[ti], j as int);
    lemma_contains_stable(pre.dependency@, post.dependency@, (j, (n0 + kk) as usize));
    assert(post.resolves(leaves(cfg)[kk].after@[ti], j as int));
    assert(post.dependency@.contains((j, (n0 + kk) as usize)));
}

/// A whitelist fact survives growth.
proof fn lemma_amb_present_stable(
    pre: Schedule,
    post: Schedule,
    n0: int,
    cfg: SystemConfigs,
    kk: int,
    ti: int,
)
    requires
        pre.amb_present(n0, cfg, kk, ti),
        post.nodes@.len() >= pre.nodes@.len(),
        forall|i: int| 0 <= i < pre.nodes@.len() ==> post.nodes@[i] == pre.nodes@[i],
        post.ambiguities@.len() >= pre.ambiguities@.len(),
        forall|k: int| 0 <= k < pre.ambiguities@.len() ==> post.ambiguities@[k] == pre.ambiguities@[k],
    ensures
        post.amb_present(n0, cfg, kk, ti),
{
    let j = choose|j: usize|
        pre.resolves(leaves(cfg)[kk].ambiguous_with@[ti], j as int) && pre.ambiguities@.contains(
            ((n0 + kk) as usize, j),
        );
    lemma_resolve_stable(pre, post, leaves(cfg)[kk].ambiguous_with@[ti], j as int);
    lemma_contains_stable(pre.ambiguities@, post.ambiguities@, ((n0 + kk) as usize, j));
    assert(post.resolves(leaves(cfg)[kk].ambiguous_with@[ti], j as int));
    assert(post.ambiguities@.contains(((n0 + kk) as usize, j)));
}

/// An anonymous-group membership fact survives growth.
proof fn lemma_anon_present_stable(
    pre: Schedule,
    post: Schedule,
    n0: int,
    cfg: SystemConfigs,
    gi: int,
    kk: int,
)
    requires
        pre.anon_present(n0, cfg, gi, kk),
        post.nodes@.len() >= pre.nodes@.len(),
        forall|i: int| 0 <= i < pre.nodes@.len() ==> post.nodes@[i] == pre.nodes@[i],
        post.hierarchy@.len() >= pre.hierarchy@.len(),
        forall|k: int| 0 <= k < pre.hierarchy@.len() ==> post.hierarchy@[k] == pre.hierarchy@[k],
    ensures
        post.anon_present(n0, cfg, gi, kk),
{
    let j = choose|j: usize|
        pre.set_has_kind(j as int, SetKind::Anonymous) && pre.set_entry(j as int).conditions@
            == cond_ranges(cfg, 0)[gi].0 && pre.hierarchy@.contains(((n0 + kk) as usize, j));
    assert(post.nodes@[j as int] == pre.nodes@[j as int]);
    lemma_contains_stable(pre.hierarchy@, post.hierarchy@, ((n0 + kk) as usize, j));
    assert(post.set_has_kind(j as int, SetKind::Anonymous));
    assert(post.set_entry(j as int).conditions@ == cond_ranges(cfg, 0)[gi].0);
    assert(post.hierarchy@.contains(((n0 + kk) as usize, j)));
}

/// Membership survives appending.
proof fn lemma_contains_stable(pre: Seq<(usize, usize)>, post: Seq<(usize, usize)>, e: (usize, usize))
    requires
        pre.contains(e),
        post.len() >= pre.len(),
        forall|k: int| 0 <= k < pre.len() ==> post[k] == pre[k],
    ensures
        post.contains(e),
{
    let k = choose|k: int| 0 <= k < pre.len() && pre[k] == e;
    assert(post[k] == e);
}

/// A slot keeps what set lookups read: its variant, and its identity when it
/// is a set.
pub open spec fn set_kind_preserved(a: NodeEntry, b: NodeEntry) -> bool {
    match (a, b) {
        (NodeEntry::System(_), NodeEntry::System(_)) => true,
        (NodeEntry::SystemSet(x), NodeEntry::SystemSet(y)) => x.kind == y.kind,
        _ => false,
    }
}

/// Set lookups survive any change that keeps the slots' kinds.
proof fn lemma_resolve_kind_stable(pre: Schedule, post: Schedule, t: OrderTarget, q: int)
    requires
        pre.resolves(t, q),
        post.nodes@.len() >= pre.nodes@.len(),
        forall|i: int|
            0 <= i < pre.nodes@.len() ==> set_kind_preserved(#[trigger] pre.nodes@[i], post.nodes@[i]),
    ensures
        post.resolves(t, q),
{
    assert(set_kind_preserved(pre.nodes@[q], post.nodes@[q]));
}

/// The edge frame of `configure_set` survives growth that keeps slot kinds
/// and only appends asked-for edges.
proof fn lemma_sc_edges_stable(
    pre: Schedule,
    post: Schedule,
    base_h: Seq<(usize, usize)>,
    base_d: Seq<(usize, usize)>,
    base_a: Seq<(usize, usize)>,
    j: usize,
    cfg: SetConfig,
)
    requires
        pre.sc_edges_frame(base_h, base_d, base_a, j, cfg),
        post.nodes@.len() >= pre.nodes@.len(),
        forall|i: int|
            0 <= i < pre.nodes@.len() ==> set_kind_preserved(#[trigger] pre.nodes@[i], post.nodes@[i]),
        post.hierarchy@.len() >= pre.hierarchy@.len(),
        forall|k: int| 0 <= k < pre.hierarchy@.len() ==> post.hierarchy@[k] == pre.hierarchy@[k],
        forall|k: int|
            pre.hierarchy@.len() <= k < post.hierarchy@.len() ==> post.sc_hier_edge_ok(
                j,
                cfg,
                #[trigger] post.hierarchy@[k],
            ),
        post.dependency@.len() >= pre.dependency@.len(),
        forall|k: int| 0 <= k < pre.dependency@.len() ==> post.dependency@[k] == pre.dependency@[k],
        forall|k: int|
            pre.dependency@.len() <= k < post.dependency@.len() ==> post.sc_dep_edge_ok(
                j,
                cfg,
                #[trigger] post.dependency@[k],
            ),
        post.ambiguities@.len() >= pre.ambiguities@.len(),
        forall|k: int| 0 <= k < pre.ambiguities@.len() ==> post.ambiguities@[k] == pre.ambiguities@[k],
        forall|k: int|
            pre.ambiguities@.len() <= k < post.ambiguities@.len() ==> post.sc_amb_edge_ok(
                j,
                cfg,
                #[trigger] post.ambiguities@[k],
            ),
    ensures
        post.sc_edges_frame(base_h, base_d, base_a, j, cfg),
{
    assert forall|k: int|
        base_h.len() <= k < post.hierarchy@.len() implies post.sc_hier_edge_ok(
        j,
        cfg,
        #[trigger] post.hierarchy@[k],
    ) by {
        if k < pre.hierarchy@.len() {
            assert(pre.sc_hier_edge_ok(j, cfg, pre.hierarchy@[k]));
            let e = pre.hierarchy@[k];
            let ti = choose|ti: int|
                0 <= ti < cfg.in_sets@.len() && pre.set_has_kind(
                    e.1 as int,
                    SetKind::Named(#[trigger] cfg.in_sets@[ti]),
                );
            assert(set_kind_preserved(pre.nodes@[e.1 as int], post.nodes@[e.1 as int]));
            assert(post.set_has_kind(e.1 as int, SetKind::Named(cfg.in_sets@[ti])));
        }
    }
    assert forall|k: int|
        base_d.len() <= k < post.dependency@.len() implies post.sc_dep_edge_ok(
        j,
        cfg,
        #[trigger] post.dependency@[k],
    ) by {
        if k < pre.dependency@.len() {
            assert(pre.sc_dep_edge_ok(j, cfg, pre.dependency@[k]));
            let e = pre.dependency@[k];
            if e.0 == j && exists|ti: int|
                0 <= ti < cfg.before@.len() && pre.resolves(#[trigger] cfg.before@[ti], e.1 as int) {
                let ti = choose|ti: int|
                    0 <= ti < cfg.before@.len() && pre.resolves(
                        #[trigger] cfg.before@[ti],
                        e.1 as int,
                    );
                lemma_resolve_kind_stable(pre, post, cfg.before@[ti], e.1 as int);
            } else {
                let ti = choose|ti: int|
                    0 <= ti < cfg.after@.len() && pre.resolves(
                        #[trigger] cfg.after@[ti],
                        e.0 as int,
                    );
                lemma_resolve_kind_stable(pre, post, cfg.after@[ti], e.0 as int);
            }
        }
    }
    assert forall|k: int|
        base_a.len() <= k < post.ambiguities@.len() implies post.sc_amb_edge_ok(
        j,
        cfg,
        #[trigger] post.ambiguities@[k],
    ) by {
        if k < pre.ambiguities@.len() {
            assert(pre.sc_amb_edge_ok(j, cfg, pre.ambiguities@[k]));
            let e = pre.ambiguities@[k];
            let ti = choose|ti: int|
                0 <= ti < cfg.ambiguous_with@.len() && pre.resolves(
                    #[trigger] cfg.ambiguous_with@[ti],
                    e.1 as int,
                );
            lemma_resolve_kind_stable(pre, post, cfg.ambiguous_with@[ti], e.1 as int);
        }
    }
}

/// The arena frame of `configure_set` survives growth that keeps old slots
/// and appends only sets.
proof fn lemma_sc_nodes_stable(
    pre: Schedule,
    post: Schedule,
    base: Seq<NodeEntry>,
    j: usize,
    appended: Seq<Condition>,
)
    requires
        pre.sc_nodes_frame(base, j, appended),
        post.nodes@.len() >= pre.nodes@.len(),
        forall|i: int| 0 <= i < pre.nodes@.len() ==> post.nodes@[i] == pre.nodes@[i],
        forall|i: int| pre.nodes@.len() <= i < post.nodes@.len() ==> post.is_set_node(i),
    ensures
        post.sc_nodes_frame(base, j, appended),
{
    assert forall|i: int| 0 <= i < base.len() && i != j implies post.nodes@[i] == base[i] by {
        assert(pre.nodes@[i] == base[i]);
    }
    assert forall|i: int| base.len() <= i < post.nodes@.len() implies post.is_set_node(i) by {
        if i < pre.nodes@.len() {
            assert(pre.is_set_node(i));
            assert(post.nodes@[i] == pre.nodes@[i]);
        }
    }
    assert(post.nodes@[j as int] == pre.nodes@[j as int]);
}

/// Everything one `configure_set` call promised survives a later one: later
/// calls keep every slot's kind and every existing edge.
pub proof fn lemma_set_config_present_stable(pre: Schedule, post: Schedule, j: usize, cfg: SetConfig)
    requires
        pre.set_config_present(j, cfg),
        post.nodes@.len() >= pre.nodes@.len(),
        forall|i: int|
            0 <= i < pre.nodes@.len() ==> set_kind_preserved(#[trigger] pre.nodes@[i], post.nodes@[i]),
        post.hierarchy@.len() >= pre.hierarchy@.len(),
        forall|k: int| 0 <= k < pre.hierarchy@.len() ==> post.hierarchy@[k] == pre.hierarchy@[k],
        post.dependency@.len() >= pre.dependency@.len(),
        forall|k: int| 0 <= k < pre.dependency@.len() ==> post.dependency@[k] == pre.dependency@[k],
        post.ambiguities@.len() >= pre.ambiguities@.len(),
        forall|k: int| 0 <= k < pre.ambiguities@.len() ==> post.ambiguities@[k] == pre.ambiguities@[k],
    ensures
        post.set_config_present(j, cfg),
{
    assert(set_kind_preserved(pre.nodes@[j as int], post.nodes@[j as int]));
    assert forall|ti: int|
        0 <= ti < cfg.in_sets@.len() implies #[trigger] post.sc_inset_present(
        j,
        cfg.in_sets@,
        ti,
    ) by {
        assert(pre.sc_inset_present(j, cfg.in_sets@, ti));
        let q = choose|q: usize|
            pre.set_has_kind(q as int, SetKind::Named(cfg.in_sets@[ti])) && pre.hierarchy@.contains(
                (j, q),
            );
        assert(set_kind_preserved(pre.nodes@[q as int], post.nodes@[q as int]));
        lemma_contains_stable(pre.hierarchy@, post.hierarchy@, (j, q));
        assert(post.set_has_kind(q as int, SetKind::Named(cfg.in_sets@[ti])));
    }
    assert forall|ti: int|
        0 <= ti < cfg.before@.len() implies #[trigger] post.sc_before_present(
        j,
        cfg.before@,
        ti,
    ) by {
        assert(pre.sc_before_present(j, cfg.before@, ti));
        let q = choose|q: usize|
            pre.resolves(cfg.before@[ti], q as int) && pre.dependency@.contains((j, q));
        lemma_resolve_kind_stable(pre, post, cfg.before@[ti], q as int);
        lemma_contains_stable(pre.dependency@, post.dependency@, (j, q));
    }
    assert forall|ti: int|
        0 <= ti < cfg.after@.len() implies #[trigger] post.sc_after_present(j, cfg.after@, ti) by {
        assert(pre.sc_after_present(j, cfg.after@, ti));
        let q = choose|q: usize|
            pre.resolves(cfg.after@[ti], q as int) && pre.dependency@.contains((q, j));
        lemma_resolve_kind_stable(pre, post, cfg.after@[ti], q as int);
        lemma_contains_stable(pre.dependency@, post.dependency@, (q, j));
    }
    assert forall|ti: int|
        0 <= ti < cfg.ambiguous_with@.len() implies #[trigger] post.sc_amb_present(
        j,
        cfg.ambiguous_with@,
        ti,
    ) by {
        assert(pre.sc_amb_present(j, cfg.ambiguous_with@, ti));
        let q = choose|q: usize|
            pre.resolves(cfg.ambiguous_with@[ti], q as int) && pre.ambiguities@.contains((j, q));
        lemma_resolve_kind_stable(pre, post, cfg.ambiguous_with@[ti], q as int);
        lemma_contains_stable(pre.ambiguities@, post.ambiguities@, (j, q));
    }
}

/// No two set entries share a named or type identity.
pub open spec fn sets_unique_in(nodes: Seq<NodeEntry>) -> bool {
    forall|j1: int, j2: int|
        0 <= j1 < nodes.len() && 0 <= j2 < nodes.len() && j1 != j2 && (#[trigger] nodes[j1])
            is SystemSet && (#[trigger] nodes[j2]) is SystemSet ==> !identities_clash(
            nodes[j1]->SystemSet_0.kind,
            nodes[j2]->SystemSet_0.kind,
        )
}

/// Every edge stays inside the arena and points at a set.
pub open spec fn hierarchy_edges_ok(nodes: Seq<NodeEntry>, edges: Seq<(usize, usize)>) -> bool {
    forall|k: int|
        0 <= k < edges.len() ==> (#[trigger] edges[k]).0 < nodes.len() && edges[k].1 < nodes.len()
            && nodes[edges[k].1 as int] is SystemSet
}

/// Every edge stays inside the arena.
pub open spec fn edge_ends_ok(nodes: Seq<NodeEntry>, edges: Seq<(usize, usize)>) -> bool {
    forall|k: int|
        0 <= k < edges.len() ==> (#[trigger] edges[k]).0 < nodes.len() && edges[k].1 < nodes.len()
}

/// Two interned identities that must not coexist on distinct sets.
pub open spec fn identities_clash(a: SetKind, b: SetKind) -> bool {
    match (a, b) {
        (SetKind::Named(x), SetKind::Named(y)) => x == y,
        (SetKind::TypeSet(x), SetKind::TypeSet(y)) => x == y,
        _ => false,
    }
}

/// Decides equality of set identities (anonymous ones never match).
fn kinds_equal(a: &SetKind, b: &SetKind) -> (r: bool)
    ensures
        r == identities_clash(*a, *b),
{
    match (a, b) {
        (SetKind::Named(x), SetKind::Named(y)) => x == y,
        (SetKind::TypeSet(x), SetKind::TypeSet(y)) => x == y,
        _ => false,
    }
}

} // verus!
