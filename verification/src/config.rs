//! The builder grammar: tree-shaped configurations of systems and sets.
//!
//! A configuration carries system leaves plus ordering modifiers (`before`,
//! `after`), set membership (`in_set`), per-node run conditions (`run_if`), a
//! `chain` operator that orders the children of a group sequentially, and a
//! `distributive_run_if` that copies one condition onto every leaf.
//!
//! Chaining connects each pair of adjacent children. A child whose own leaves
//! are totally ordered by its chain structure is *densely chained*; a chain
//! edge then only needs to touch its last (respectively first) leaf, otherwise
//! the edge fans out over all of the child's leaves. [`chain_edges`] states the
//! resulting edge set over absolute leaf indices.

use vstd::prelude::*;
use crate::system::{Condition, SystemDesc};

verus! {

/// What an ordering modifier points at: a named set or the synthetic type-set
/// of one system constructor.
#[derive(Clone, Copy, PartialEq, Eq, Structural)]
pub enum OrderTarget {
    Named(u64),
    SystemType(u64),
}

/// One system leaf with its accumulated modifiers.
pub struct SystemConfig {
    pub system: SystemDesc,
    /// Named sets the leaf was placed in.
    pub in_sets: Vec<u64>,
    /// Targets the leaf must run before.
    pub before: Vec<OrderTarget>,
    /// Targets the leaf must run after.
    pub after: Vec<OrderTarget>,
    /// Targets whose access conflicts with this leaf are no diagnostic.
    pub ambiguous_with: Vec<OrderTarget>,
    /// Run conditions of the leaf itself.
    pub conditions: Vec<Condition>,
}

/// The members of a group, kept as a list so that the tree recursion is
/// structural.
pub enum MemberList {
    Nil,
    Cons(Box<SystemConfigs>, Box<MemberList>),
}

/// A group of configurations.
pub struct GroupConfig {
    pub members: MemberList,
    /// Adjacent members are ordered against each other.
    pub chained: bool,
    /// Conditions gating the whole group at once, lowered onto an anonymous
    /// set when the group is added.
    pub collective_conditions: Vec<Condition>,
}

/// A tree-shaped configuration of systems.
pub enum SystemConfigs {
    Single(SystemConfig),
    Group(GroupConfig),
}

// ---------------------------------------------------------------------------
// Spec-level structure of a configuration.
// ---------------------------------------------------------------------------

/// The leaves of the tree, in traversal order.
pub open spec fn leaves(c: SystemConfigs) -> Seq<SystemConfig>
    decreases c,
{
    match c {
        SystemConfigs::Single(cfg) => seq![cfg],
        SystemConfigs::Group(g) => leaves_of(g.members),
    }
}

/// The leaves of a member list, in traversal order.
pub open spec fn leaves_of(ml: MemberList) -> Seq<SystemConfig>
    decreases ml,
{
    match ml {
        MemberList::Nil => Seq::empty(),
        MemberList::Cons(h, t) => leaves(*h) + leaves_of(*t),
    }
}

/// A configuration whose chain structure totally orders its own leaves, so
/// that chaining against it only needs to touch its first or last leaf.
pub open spec fn densely_chained(c: SystemConfigs) -> bool
    decreases c,
{
    match c {
        SystemConfigs::Single(_) => true,
        SystemConfigs::Group(g) => if g.chained {
            all_densely_chained(g.members)
        } else {
            match g.members {
                MemberList::Cons(h, t) => *t is Nil && densely_chained(*h),
                MemberList::Nil => false,
            }
        },
    }
}

/// Every member is densely chained.
pub open spec fn all_densely_chained(ml: MemberList) -> bool
    decreases ml,
{
    match ml {
        MemberList::Nil => true,
        MemberList::Cons(h, t) => densely_chained(*h) && all_densely_chained(*t),
    }
}

/// The chain edges between a finished neighbour occupying absolute leaf
/// indices `[prev_start, prev_end)` and the next one occupying
/// `[cur_start, cur_end)`. A densely chained side is pinned to its last
/// (respectively first) leaf; the other side fans out. Empty sides contribute
/// nothing.
pub open spec fn window_edges(
    prev_start: int,
    prev_end: int,
    prev_dense: bool,
    cur_start: int,
    cur_end: int,
    cur_dense: bool,
) -> Set<(int, int)> {
    Set::new(
        |e: (int, int)|
            {
                &&& prev_start < prev_end
                &&& cur_start < cur_end
                &&& if prev_dense {
                    e.0 == prev_end - 1
                } else {
                    prev_start <= e.0 < prev_end
                }
                &&& if cur_dense {
                    e.1 == cur_start
                } else {
                    cur_start <= e.1 < cur_end
                }
            },
    )
}

/// The dependency edges a configuration adds, over absolute leaf indices
/// starting at `base`.
pub open spec fn chain_edges(c: SystemConfigs, base: int) -> Set<(int, int)>
    decreases c,
{
    match c {
        SystemConfigs::Single(_) => Set::empty(),
        SystemConfigs::Group(g) => member_edges(g.members, g.chained, base, None),
    }
}

/// The edges of a member list laid out from `base`, where `prev` carries the
/// absolute start and the density of the member laid out just before `base`.
pub open spec fn member_edges(
    ml: MemberList,
    chained: bool,
    base: int,
    prev: Option<(int, bool)>,
) -> Set<(int, int)>
    decreases ml,
{
    match ml {
        MemberList::Nil => Set::empty(),
        MemberList::Cons(h, t) => {
            let end = base + leaves(*h).len();
            let w = if chained {
                match prev {
                    Some(p) => window_edges(p.0, base, p.1, base, end, densely_chained(*h)),
                    None => Set::empty(),
                }
            } else {
                Set::empty()
            };
            w.union(chain_edges(*h, base)).union(
                member_edges(*t, chained, end, Some((base, densely_chained(*h)))),
            )
        },
    }
}

/// The collective condition groups of a configuration: each entry gates the
/// absolute leaf range `[start, end)` with its conditions.
pub open spec fn cond_ranges(c: SystemConfigs, base: int) -> Seq<(Seq<Condition>, int, int)>
    decreases c,
{
    match c {
        SystemConfigs::Single(_) => Seq::empty(),
        SystemConfigs::Group(g) => member_cond_ranges(g.members, base) + if g
            .collective_conditions@.len() > 0 {
            seq![(g.collective_conditions@, base, base + leaves_of(g.members).len())]
        } else {
            Seq::empty()
        },
    }
}

/// The collective condition groups of a member list laid out from `base`.
pub open spec fn member_cond_ranges(ml: MemberList, base: int) -> Seq<(Seq<Condition>, int, int)>
    decreases ml,
{
    match ml {
        MemberList::Nil => Seq::empty(),
        MemberList::Cons(h, t) => cond_ranges(*h, base) + member_cond_ranges(
            *t,
            base + leaves(*h).len(),
        ),
    }
}

/// Chain edges stay within the leaf range of their configuration; sources may
/// additionally come from the neighbour described by `prev`.
pub proof fn lemma_member_edges_bounds(
    ml: MemberList,
    chained: bool,
    base: int,
    prev: Option<(int, bool)>,
    lo: int,
)
    requires
        lo <= base,
        prev matches Some(p) ==> lo <= p.0 && p.0 <= base,
    ensures
        forall|e: (int, int)|
            #[trigger] member_edges(ml, chained, base, prev).contains(e) ==> lo <= e.0 && base
                <= e.1 && e.0 < base + leaves_of(ml).len() && e.1 < base + leaves_of(ml).len(),
    decreases ml,
{
    match ml {
        MemberList::Nil => {},
        MemberList::Cons(h, t) => {
            let end = base + leaves(*h).len();
            lemma_chain_edges_bounds(*h, base);
            lemma_member_edges_bounds(*t, chained, end, Some((base, densely_chained(*h))), base);
            assert forall|e: (int, int)|
                #[trigger] member_edges(ml, chained, base, prev).contains(e) implies lo <= e.0
                && base <= e.1 && e.0 < base + leaves_of(ml).len() && e.1 < base + leaves_of(
                ml,
            ).len() by {
                if chain_edges(*h, base).contains(e) {
                } else if member_edges(*t, chained, end, Some((base, densely_chained(*h)))).contains(
                    e,
                ) {
                } else {
                }
            }
        },
    }
}

/// Chain edges stay within the leaf range of their configuration.
pub proof fn lemma_chain_edges_bounds(c: SystemConfigs, base: int)
    ensures
        forall|e: (int, int)|
            #[trigger] chain_edges(c, base).contains(e) ==> base <= e.0 && base <= e.1 && e.0
                < base + leaves(c).len() && e.1 < base + leaves(c).len(),
    decreases c,
{
    match c {
        SystemConfigs::Single(_) => {},
        SystemConfigs::Group(g) => {
            lemma_member_edges_bounds(g.members, g.chained, base, None, base);
            assert forall|e: (int, int)| #[trigger] chain_edges(c, base).contains(e) implies base
                <= e.0 && base <= e.1 && e.0 < base + leaves(c).len() && e.1 < base + leaves(
                c,
            ).len() by {
                assert(member_edges(g.members, g.chained, base, None).contains(e));
            }
        },
    }
}

/// Collective condition ranges stay within the leaf range.
pub proof fn lemma_cond_ranges_bounds(c: SystemConfigs, base: int)
    ensures
        forall|gi: int|
            0 <= gi < cond_ranges(c, base).len() ==> base <= (#[trigger] cond_ranges(
                c,
                base,
            )[gi]).1 && cond_ranges(c, base)[gi].1 <= cond_ranges(c, base)[gi].2 && cond_ranges(
                c,
                base,
            )[gi].2 <= base + leaves(c).len(),
    decreases c,
{
    match c {
        SystemConfigs::Single(_) => {},
        SystemConfigs::Group(g) => {
            lemma_member_cond_ranges_bounds(g.members, base);
            let mc = member_cond_ranges(g.members, base);
            assert forall|gi: int| 0 <= gi < cond_ranges(c, base).len() implies base <= (
            #[trigger] cond_ranges(c, base)[gi]).1 && cond_ranges(c, base)[gi].1 <= cond_ranges(
                c,
                base,
            )[gi].2 && cond_ranges(c, base)[gi].2 <= base + leaves(c).len() by {
                if gi < mc.len() {
                    assert(cond_ranges(c, base)[gi] == mc[gi]);
                }
            }
        },
    }
}

/// Collective condition ranges of a member list stay within its leaf range.
pub proof fn lemma_member_cond_ranges_bounds(ml: MemberList, base: int)
    ensures
        forall|gi: int|
            0 <= gi < member_cond_ranges(ml, base).len() ==> base <= (#[trigger] member_cond_ranges(
                ml,
                base,
            )[gi]).1 && member_cond_ranges(ml, base)[gi].1 <= member_cond_ranges(ml, base)[gi].2
                && member_cond_ranges(ml, base)[gi].2 <= base + leaves_of(ml).len(),
    decreases ml,
{
    match ml {
        MemberList::Nil => {},
        MemberList::Cons(h, t) => {
            let end = base + leaves(*h).len();
            lemma_cond_ranges_bounds(*h, base);
            lemma_member_cond_ranges_bounds(*t, end);
            let ch = cond_ranges(*h, base);
            let mt = member_cond_ranges(*t, end);
            assert forall|gi: int|
                0 <= gi < member_cond_ranges(ml, base).len() implies base <= (
            #[trigger] member_cond_ranges(ml, base)[gi]).1 && member_cond_ranges(ml, base)[gi].1
                <= member_cond_ranges(ml, base)[gi].2 && member_cond_ranges(ml, base)[gi].2 <= base
                + leaves_of(ml).len() by {
                if gi < ch.len() {
                    assert(member_cond_ranges(ml, base)[gi] == ch[gi]);
                } else {
                    assert(member_cond_ranges(ml, base)[gi] == mt[gi - ch.len()]);
                }
            }
        },
    }
}

// ---------------------------------------------------------------------------
// Edits applied to every leaf.
// ---------------------------------------------------------------------------

/// An edit applied to every leaf of a configuration.
#[derive(Clone, Copy)]
pub enum LeafEdit {
    AddInSet(u64),
    AddBefore(OrderTarget),
    AddAfter(OrderTarget),
    AddAmbiguousWith(OrderTarget),
    AddRunIf(Condition),
}

/// `b` is `a` with the edit applied.
pub open spec fn leaf_edited(a: SystemConfig, b: SystemConfig, e: LeafEdit) -> bool {
    &&& b.system == a.system
    &&& match e {
        LeafEdit::AddInSet(key) => b.in_sets@ == a.in_sets@.push(key) && b.before == a.before
            && b.after == a.after && b.ambiguous_with == a.ambiguous_with && b.conditions
            == a.conditions,
        LeafEdit::AddBefore(t) => b.before@ == a.before@.push(t) && b.in_sets == a.in_sets
            && b.after == a.after && b.ambiguous_with == a.ambiguous_with && b.conditions
            == a.conditions,
        LeafEdit::AddAfter(t) => b.after@ == a.after@.push(t) && b.in_sets == a.in_sets && b.before
            == a.before && b.ambiguous_with == a.ambiguous_with && b.conditions == a.conditions,
        LeafEdit::AddAmbiguousWith(t) => b.ambiguous_with@ == a.ambiguous_with@.push(t)
            && b.in_sets == a.in_sets && b.before == a.before && b.after == a.after && b.conditions
            == a.conditions,
        LeafEdit::AddRunIf(c) => b.conditions@ == a.conditions@.push(c) && b.in_sets == a.in_sets
            && b.before == a.before && b.after == a.after && b.ambiguous_with == a.ambiguous_with,
    }
}

/// `a` and `b` have the same tree shape: the same grouping, chain flags and
/// collective conditions, differing at most in their leaves.
pub open spec fn same_shape(a: SystemConfigs, b: SystemConfigs) -> bool
    decreases a,
{
    match (a, b) {
        (SystemConfigs::Single(_), SystemConfigs::Single(_)) => true,
        (SystemConfigs::Group(ga), SystemConfigs::Group(gb)) => ga.chained == gb.chained
            && ga.collective_conditions@ == gb.collective_conditions@ && same_shape_members(
            ga.members,
            gb.members,
        ),
        _ => false,
    }
}

/// Member lists of the same shape, pairwise.
pub open spec fn same_shape_members(a: MemberList, b: MemberList) -> bool
    decreases a,
{
    match (a, b) {
        (MemberList::Nil, MemberList::Nil) => true,
        (MemberList::Cons(ha, ta), MemberList::Cons(hb, tb)) => same_shape(*ha, *hb)
            && same_shape_members(*ta, *tb),
        _ => false,
    }
}

/// Trees of the same shape have the same leaf count and density.
pub proof fn lemma_same_shape_basic(a: SystemConfigs, b: SystemConfigs)
    requires
        same_shape(a, b),
    ensures
        leaves(a).len() == leaves(b).len(),
        densely_chained(a) == densely_chained(b),
    decreases a,
{
    match (a, b) {
        (SystemConfigs::Group(ga), SystemConfigs::Group(gb)) => {
            lemma_same_shape_members_basic(ga.members, gb.members);
        },
        _ => {},
    }
}

/// Member lists of the same shape have the same leaf count and density.
pub proof fn lemma_same_shape_members_basic(a: MemberList, b: MemberList)
    requires
        same_shape_members(a, b),
    ensures
        leaves_of(a).len() == leaves_of(b).len(),
        all_densely_chained(a) == all_densely_chained(b),
        a is Nil <==> b is Nil,
        match (a, b) {
            (MemberList::Cons(ha, ta), MemberList::Cons(hb, tb)) => densely_chained(*ha)
                == densely_chained(*hb) && (*ta is Nil <==> *tb is Nil),
            _ => true,
        },
    decreases a,
{
    match (a, b) {
        (MemberList::Cons(ha, ta), MemberList::Cons(hb, tb)) => {
            lemma_same_shape_basic(*ha, *hb);
            lemma_same_shape_members_basic(*ta, *tb);
        },
        _ => {},
    }
}

/// Trees of the same shape add the same chain edges and condition ranges.
pub proof fn lemma_same_shape_edges(a: SystemConfigs, b: SystemConfigs, base: int)
    requires
        same_shape(a, b),
    ensures
        chain_edges(a, base) == chain_edges(b, base),
        cond_ranges(a, base) == cond_ranges(b, base),
    decreases a,
{
    lemma_same_shape_basic(a, b);
    match (a, b) {
        (SystemConfigs::Group(ga), SystemConfigs::Group(gb)) => {
            lemma_same_shape_members_edges(ga.members, gb.members, ga.chained, base, None);
            lemma_same_shape_members_basic(ga.members, gb.members);
        },
        _ => {},
    }
}

/// Member lists of the same shape add the same chain edges and condition
/// ranges, whatever came before them.
pub proof fn lemma_same_shape_members_edges(
    a: MemberList,
    b: MemberList,
    chained: bool,
    base: int,
    prev: Option<(int, bool)>,
)
    requires
        same_shape_members(a, b),
    ensures
        member_edges(a, chained, base, prev) == member_edges(b, chained, base, prev),
        member_cond_ranges(a, base) == member_cond_ranges(b, base),
    decreases a,
{
    match (a, b) {
        (MemberList::Cons(ha, ta), MemberList::Cons(hb, tb)) => {
            lemma_same_shape_basic(*ha, *hb);
            lemma_same_shape_edges(*ha, *hb, base);
            let end = base + leaves(*ha).len();
            lemma_same_shape_members_edges(
                *ta,
                *tb,
                chained,
                end,
                Some((base, densely_chained(*ha))),
            );
        },
        _ => {},
    }
}

/// All leaves related pairwise by the edit.
pub open spec fn leaves_edited(a: Seq<SystemConfig>, b: Seq<SystemConfig>, e: LeafEdit) -> bool {
    b.len() == a.len() && forall|i: int| 0 <= i < a.len() ==> leaf_edited(a[i], #[trigger] b[i], e)
}

/// Applies an edit to one leaf.
fn edit_one(cfg: SystemConfig, e: &LeafEdit) -> (r: SystemConfig)
    ensures
        leaf_edited(cfg, r, *e),
{
    let SystemConfig { system, mut in_sets, mut before, mut after, mut ambiguous_with, mut conditions } =
        cfg;
    match e {
        LeafEdit::AddInSet(key) => {
            in_sets.push(*key);
        },
        LeafEdit::AddBefore(t) => {
            before.push(*t);
        },
        LeafEdit::AddAfter(t) => {
            after.push(*t);
        },
        LeafEdit::AddAmbiguousWith(t) => {
            ambiguous_with.push(*t);
        },
        LeafEdit::AddRunIf(c) => {
            conditions.push(*c);
        },
    }
    SystemConfig { system, in_sets, before, after, ambiguous_with, conditions }
}

/// Applies an edit to every leaf of the tree, keeping its shape.
fn edit_leaves(c: SystemConfigs, e: &LeafEdit) -> (r: SystemConfigs)
    ensures
        same_shape(c, r),
        leaves_edited(leaves(c), leaves(r), *e),
    decreases c,
{
    match c {
        SystemConfigs::Single(cfg) => SystemConfigs::Single(edit_one(cfg, e)),
        SystemConfigs::Group(g) => {
            let GroupConfig { members, chained, collective_conditions } = g;
            let edited = edit_members(members, e);
            SystemConfigs::Group(
                GroupConfig { members: edited, chained, collective_conditions },
            )
        },
    }
}

/// Applies an edit to every leaf under a member list.
fn edit_members(ml: MemberList, e: &LeafEdit) -> (r: MemberList)
    ensures
        same_shape_members(ml, r),
        leaves_edited(leaves_of(ml), leaves_of(r), *e),
    decreases ml,
{
    match ml {
        MemberList::Nil => MemberList::Nil,
        MemberList::Cons(h, t) => {
            let h2 = edit_leaves(*h, e);
            let t2 = edit_members(*t, e);
            let ghost lh = leaves(h2);
            let ghost lt = leaves_of(t2);
            let r = MemberList::Cons(Box::new(h2), Box::new(t2));
            proof {
                assert(leaves_of(r) == lh + lt);
            }
            r
        },
    }
}

// ---------------------------------------------------------------------------
// The public builder surface.
// ---------------------------------------------------------------------------

impl SystemConfigs {
    /// A single system as a configuration.
    pub fn new_system(desc: SystemDesc) -> (r: SystemConfigs)
        ensures
            r matches SystemConfigs::Single(cfg) && cfg.system == desc && cfg.in_sets@.len() == 0
                && cfg.before@.len() == 0 && cfg.after@.len() == 0 && cfg.ambiguous_with@.len()
                == 0 && cfg.conditions@.len() == 0,
    {
        SystemConfigs::Single(
            SystemConfig {
                system: desc,
                in_sets: Vec::new(),
                before: Vec::new(),
                after: Vec::new(),
                ambiguous_with: Vec::new(),
                conditions: Vec::new(),
            },
        )
    }

    /// An empty, unchained group.
    pub fn group() -> (r: SystemConfigs)
        ensures
            r matches SystemConfigs::Group(g) && g.members is Nil && !g.chained
                && g.collective_conditions@.len() == 0,
    {
        SystemConfigs::Group(
            GroupConfig {
                members: MemberList::Nil,
                chained: false,
                collective_conditions: Vec::new(),
            },
        )
    }

    /// Appends one more member. On a single system this first wraps the pair
    /// into a fresh group, so tuples can be spelled `a.with(b).with(c)`.
    pub fn with(self, m: SystemConfigs) -> (r: SystemConfigs)
        ensures
            r matches SystemConfigs::Group(g) && match self {
                SystemConfigs::Single(_) => !g.chained && g.collective_conditions@.len() == 0
                    && member_list_is2(g.members, self, m),
                SystemConfigs::Group(old) => g.chained == old.chained
                    && g.collective_conditions == old.collective_conditions && member_appended(
                    old.members,
                    m,
                    g.members,
                ),
            },
    {
        match self {
            SystemConfigs::Single(cfg) => {
                let first = SystemConfigs::Single(cfg);
                let members = MemberList::Cons(
                    Box::new(first),
                    Box::new(MemberList::Cons(Box::new(m), Box::new(MemberList::Nil))),
                );
                SystemConfigs::Group(
                    GroupConfig { members, chained: false, collective_conditions: Vec::new() },
                )
            },
            SystemConfigs::Group(g) => {
                let GroupConfig { members, chained, collective_conditions } = g;
                let members = append_member(members, m);
                SystemConfigs::Group(GroupConfig { members, chained, collective_conditions })
            },
        }
    }

    /// Orders adjacent members of this group against each other.
    pub fn chain(self) -> (r: SystemConfigs)
        ensures
            match self {
                SystemConfigs::Single(_) => r == self,
                SystemConfigs::Group(old) => r matches SystemConfigs::Group(g) && g.chained
                    && g.members == old.members && g.collective_conditions
                    == old.collective_conditions,
            },
    {
        match self {
            SystemConfigs::Single(cfg) => SystemConfigs::Single(cfg),
            SystemConfigs::Group(g) => {
                let GroupConfig { members, chained: _, collective_conditions } = g;
                SystemConfigs::Group(GroupConfig { members, chained: true, collective_conditions })
            },
        }
    }

    /// Places every leaf in the named set.
    pub fn in_set(self, key: u64) -> (r: SystemConfigs)
        ensures
            same_shape(self, r),
            leaves_edited(leaves(self), leaves(r), LeafEdit::AddInSet(key)),
    {
        edit_leaves(self, &LeafEdit::AddInSet(key))
    }

    /// Orders every leaf before the target.
    pub fn before(self, target: OrderTarget) -> (r: SystemConfigs)
        ensures
            same_shape(self, r),
            leaves_edited(leaves(self), leaves(r), LeafEdit::AddBefore(target)),
    {
        edit_leaves(self, &LeafEdit::AddBefore(target))
    }

    /// Orders every leaf after the target.
    pub fn after(self, target: OrderTarget) -> (r: SystemConfigs)
        ensures
            same_shape(self, r),
            leaves_edited(leaves(self), leaves(r), LeafEdit::AddAfter(target)),
    {
        edit_leaves(self, &LeafEdit::AddAfter(target))
    }

    /// Suppresses conflict diagnostics between every leaf and the target.
    pub fn ambiguous_with(self, target: OrderTarget) -> (r: SystemConfigs)
        ensures
            same_shape(self, r),
            leaves_edited(leaves(self), leaves(r), LeafEdit::AddAmbiguousWith(target)),
    {
        edit_leaves(self, &LeafEdit::AddAmbiguousWith(target))
    }

    /// Gates a single system with the condition; on a group the condition
    /// gates the group as a whole, evaluated once per tick.
    pub fn run_if(self, cond: Condition) -> (r: SystemConfigs)
        ensures
            match self {
                SystemConfigs::Single(old) => r matches SystemConfigs::Single(cfg) && cfg.system
                    == old.system && cfg.in_sets == old.in_sets && cfg.before == old.before
                    && cfg.after == old.after && cfg.ambiguous_with == old.ambiguous_with
                    && cfg.conditions@ == old.conditions@.push(cond),
                SystemConfigs::Group(old) => r matches SystemConfigs::Group(g) && g.members
                    == old.members && g.chained == old.chained && g.collective_conditions@
                    == old.collective_conditions@.push(cond),
            },
    {
        match self {
            SystemConfigs::Single(cfg) => {
                let SystemConfig { system, in_sets, before, after, ambiguous_with, mut conditions } =
                    cfg;
                conditions.push(cond);
                SystemConfigs::Single(
                    SystemConfig { system, in_sets, before, after, ambiguous_with, conditions },
                )
            },
            SystemConfigs::Group(g) => {
                let GroupConfig { members, chained, mut collective_conditions } = g;
                collective_conditions.push(cond);
                SystemConfigs::Group(GroupConfig { members, chained, collective_conditions })
            },
        }
    }

    /// Copies the condition onto every leaf separately.
    pub fn distributive_run_if(self, cond: Condition) -> (r: SystemConfigs)
        ensures
            same_shape(self, r),
            leaves_edited(leaves(self), leaves(r), LeafEdit::AddRunIf(cond)),
    {
        edit_leaves(self, &LeafEdit::AddRunIf(cond))
    }
}

/// `b` is `[x, y]`.
pub open spec fn member_list_is2(b: MemberList, x: SystemConfigs, y: SystemConfigs) -> bool {
    &&& b matches MemberList::Cons(h, t) && *h == x && (*t matches MemberList::Cons(h2, t2) && *h2
        == y && *t2 is Nil)
}

/// `b` is `a` with `m` appended at the end.
pub open spec fn member_appended(a: MemberList, m: SystemConfigs, b: MemberList) -> bool
    decreases a,
{
    match a {
        MemberList::Nil => b matches MemberList::Cons(h, t) && *h == m && *t is Nil,
        MemberList::Cons(h, t) => b matches MemberList::Cons(h2, t2) && *h2 == *h
            && member_appended(*t, m, *t2),
    }
}

/// Appends a member at the end of the list.
fn append_member(ml: MemberList, m: SystemConfigs) -> (r: MemberList)
    ensures
        member_appended(ml, m, r),
    decreases ml,
{
    match ml {
        MemberList::Nil => MemberList::Cons(Box::new(m), Box::new(MemberList::Nil)),
        MemberList::Cons(h, t) => {
            let t2 = append_member(*t, m);
            MemberList::Cons(h, Box::new(t2))
        },
    }
}

// ---------------------------------------------------------------------------
// The associativity of chaining.
// ---------------------------------------------------------------------------

/// `g` is the chained group of exactly the three system leaves `a, b, c`.
pub open spec fn chained_triple(
    g: SystemConfigs,
    a: SystemConfig,
    b: SystemConfig,
    c: SystemConfig,
) -> bool {
    &&& g matches SystemConfigs::Group(gg) && gg.chained && (gg.members
        matches MemberList::Cons(h1, t1) && *h1 == SystemConfigs::Single(a) && (*t1
        matches MemberList::Cons(h2, t2) && *h2 == SystemConfigs::Single(b) && (*t2
        matches MemberList::Cons(h3, t3) && *h3 == SystemConfigs::Single(c) && *t3 is Nil)))
}

/// `g` is the chained group of exactly the two system leaves `b, c`.
pub open spec fn chained_pair(g: SystemConfigs, b: SystemConfig, c: SystemConfig) -> bool {
    &&& g matches SystemConfigs::Group(gg) && gg.chained && (gg.members
        matches MemberList::Cons(h1, t1) && *h1 == SystemConfigs::Single(b) && (*t1
        matches MemberList::Cons(h2, t2) && *h2 == SystemConfigs::Single(c) && *t2 is Nil))
}

/// `g` is the chained group of the system leaf `a` followed by `inner`.
pub open spec fn chained_with(g: SystemConfigs, a: SystemConfig, inner: SystemConfigs) -> bool {
    &&& g matches SystemConfigs::Group(gg) && gg.chained && (gg.members
        matches MemberList::Cons(h1, t1) && *h1 == SystemConfigs::Single(a) && (*t1
        matches MemberList::Cons(h2, t2) && *h2 == inner && *t2 is Nil))
}

/// Chaining is associative on systems: chaining three systems in one group
/// adds exactly the dependency edges of chaining the first system against the
/// chained pair of the other two.
pub proof fn lemma_chain_associative(
    flat: SystemConfigs,
    nested: SystemConfigs,
    inner: SystemConfigs,
    a: SystemConfig,
    b: SystemConfig,
    c: SystemConfig,
    base: int,
)
    requires
        chained_triple(flat, a, b, c),
        chained_pair(inner, b, c),
        chained_with(nested, a, inner),
    ensures
        chain_edges(flat, base) == chain_edges(nested, base),
        leaves(flat) == leaves(nested),
{
    let sa = SystemConfigs::Single(a);
    let sb = SystemConfigs::Single(b);
    let sc = SystemConfigs::Single(c);
    assert(leaves(sa) =~= seq![a]);
    assert(leaves(sb) =~= seq![b]);
    assert(leaves(sc) =~= seq![c]);
    assert(densely_chained(sa) && densely_chained(sb) && densely_chained(sc));
    // Unfold the pair.
    let pm = inner->Group_0.members;
    let pt1 = *pm->Cons_1;
    let pt2 = *pt1->Cons_1;
    assert(leaves_of(pt2) =~= Seq::<SystemConfig>::empty());
    assert(leaves_of(pt1) =~= leaves(sc) + leaves_of(pt2));
    assert(leaves_of(pm) =~= leaves(sb) + leaves_of(pt1));
    assert(leaves(inner) =~= seq![b, c]);
    assert(all_densely_chained(pt2));
    assert(all_densely_chained(pt1));
    assert(all_densely_chained(pm));
    assert(densely_chained(inner));
    // Unfold the flat triple.
    let fm = flat->Group_0.members;
    let ft1 = *fm->Cons_1;
    let ft2 = *ft1->Cons_1;
    let ft3 = *ft2->Cons_1;
    assert(leaves_of(ft3) =~= Seq::<SystemConfig>::empty());
    assert(leaves_of(ft2) =~= leaves(sc) + leaves_of(ft3));
    assert(leaves_of(ft1) =~= leaves(sb) + leaves_of(ft2));
    assert(leaves_of(fm) =~= leaves(sa) + leaves_of(ft1));
    assert(leaves(flat) =~= seq![a, b, c]);
    // Unfold the nested form.
    let nm = nested->Group_0.members;
    let nt1 = *nm->Cons_1;
    let nt2 = *nt1->Cons_1;
    assert(leaves_of(nt2) =~= Seq::<SystemConfig>::empty());
    assert(leaves_of(nt1) =~= leaves(inner) + leaves_of(nt2));
    assert(leaves_of(nm) =~= leaves(sa) + leaves_of(nt1));
    assert(leaves(nested) =~= seq![a, b, c]);
    // Compute the edge set of the flat triple, innermost member first.
    let me3 = member_edges(ft3, true, base + 3, Some((base + 2, true)));
    assert(me3 =~= Set::<(int, int)>::empty());
    let me2 = member_edges(ft2, true, base + 2, Some((base + 1, true)));
    assert(me2 =~= set![(base + 1, base + 2)]) by {
        assert(chain_edges(sc, base + 2) =~= Set::<(int, int)>::empty());
        assert(window_edges(base + 1, base + 2, true, base + 2, base + 3, true) =~= set![
            (base + 1, base + 2),
        ]);
    }
    let me1 = member_edges(ft1, true, base + 1, Some((base, true)));
    assert(me1 =~= set![(base, base + 1), (base + 1, base + 2)]) by {
        assert(chain_edges(sb, base + 1) =~= Set::<(int, int)>::empty());
        assert(window_edges(base, base + 1, true, base + 1, base + 2, true) =~= set![
            (base, base + 1),
        ]);
    }
    assert(chain_edges(flat, base) =~= set![(base, base + 1), (base + 1, base + 2)]) by {
        assert(chain_edges(sa, base) =~= Set::<(int, int)>::empty());
        assert(chain_edges(flat, base) == member_edges(fm, true, base, None));
        assert(member_edges(fm, true, base, None) =~= me1);
    }
    // Compute the edge set of the chained pair.
    let pe1 = member_edges(pt1, true, base + 2, Some((base + 1, true)));
    assert(pe1 =~= set![(base + 1, base + 2)]) by {
        assert(member_edges(pt2, true, base + 3, Some((base + 2, true))) =~= Set::<(
            int,
            int,
        )>::empty());
        assert(chain_edges(sc, base + 2) =~= Set::<(int, int)>::empty());
        assert(window_edges(base + 1, base + 2, true, base + 2, base + 3, true) =~= set![
            (base + 1, base + 2),
        ]);
    }
    assert(chain_edges(inner, base + 1) =~= set![(base + 1, base + 2)]) by {
        assert(chain_edges(sb, base + 1) =~= Set::<(int, int)>::empty());
        assert(chain_edges(inner, base + 1) == member_edges(pm, true, base + 1, None));
        assert(member_edges(pm, true, base + 1, None) =~= pe1);
    }
    // Compute the edge set of the nested form.
    let ne1 = member_edges(nt1, true, base + 1, Some((base, true)));
    assert(ne1 =~= set![(base, base + 1), (base + 1, base + 2)]) by {
        assert(member_edges(nt2, true, base + 3, Some((base + 1, true))) =~= Set::<(
            int,
            int,
        )>::empty());
        assert(window_edges(base, base + 1, true, base + 1, base + 3, true) =~= set![
            (base, base + 1),
        ]);
    }
    assert(chain_edges(nested, base) =~= set![(base, base + 1), (base + 1, base + 2)]) by {
        assert(chain_edges(sa, base) =~= Set::<(int, int)>::empty());
        assert(chain_edges(nested, base) == member_edges(nm, true, base, None));
        assert(member_edges(nm, true, base, None) =~= ne1);
    }
}

// ---------------------------------------------------------------------------
// Flattening a configuration.
// ---------------------------------------------------------------------------

/// One collective condition list gating the absolute leaf range
/// `[start, end)`.
pub struct CondGroup {
    pub conditions: Vec<Condition>,
    pub start: usize,
    pub end: usize,
}

/// A configuration taken apart: its leaves in traversal order, its chain
/// edges over leaf indices, and its collective condition ranges.
pub struct FlatConfig {
    pub leaves: Vec<SystemConfig>,
    pub edges: Vec<(usize, usize)>,
    pub groups: Vec<CondGroup>,
}

/// The condition-range sequences match entry for entry.
pub open spec fn groups_match(gs: Seq<CondGroup>, rs: Seq<(Seq<Condition>, int, int)>) -> bool {
    gs.len() == rs.len() && forall|i: int|
        0 <= i < gs.len() ==> (#[trigger] gs[i]).conditions@ == rs[i].0 && gs[i].start == rs[i].1
            && gs[i].end == rs[i].2
}

/// Appends every pair of the rectangle `[a_lo, a_hi) x [b_lo, b_hi)`.
fn push_rect(edges: &mut Vec<(usize, usize)>, a_lo: usize, a_hi: usize, b_lo: usize, b_hi: usize)
    ensures
        final(edges)@.len() >= old(edges)@.len(),
        forall|k: int| 0 <= k < old(edges)@.len() ==> final(edges)@[k] == old(edges)@[k],
        forall|e: (usize, usize)|
            #[trigger] final(edges)@.contains(e) <==> old(edges)@.contains(e) || (a_lo <= e.0
                < a_hi && b_lo <= e.1 < b_hi),
        forall|k: int|
            old(edges)@.len() <= k < final(edges)@.len() ==> a_lo <= (#[trigger] (final(edges)@[k])).0 < a_hi && b_lo <= final(edges)@[k].1 < b_hi,
{
    let ghost e0 = edges@;
    let mut a = a_lo;
    while a < a_hi
        invariant
            a_lo <= a,
            a <= a_hi || a == a_lo,
            edges@.len() >= e0.len(),
            forall|k: int| 0 <= k < e0.len() ==> edges@[k] == e0[k],
            forall|e: (usize, usize)|
                #[trigger] edges@.contains(e) <==> e0.contains(e) || (a_lo <= e.0 < a && b_lo
                    <= e.1 < b_hi),
            forall|k: int|
                e0.len() <= k < edges@.len() ==> a_lo <= (#[trigger] edges@[k]).0 < a_hi && b_lo
                    <= edges@[k].1 < b_hi,
        decreases a_hi - a,
    {
        let mut b = b_lo;
        while b < b_hi
            invariant
                a_lo <= a < a_hi,
                b_lo <= b,
                b <= b_hi || b == b_lo,
                edges@.len() >= e0.len(),
                forall|k: int| 0 <= k < e0.len() ==> edges@[k] == e0[k],
                forall|e: (usize, usize)|
                    #[trigger] edges@.contains(e) <==> e0.contains(e) || (a_lo <= e.0 < a && b_lo
                        <= e.1 < b_hi) || (e.0 == a && b_lo <= e.1 < b),
                forall|k: int|
                    e0.len() <= k < edges@.len() ==> a_lo <= (#[trigger] edges@[k]).0 < a_hi
                        && b_lo <= edges@[k].1 < b_hi,
            decreases b_hi - b,
        {
            let ghost before = edges@;
            edges.push((a, b));
            proof {
                assert(edges@.contains((a, b))) by {
                    assert(edges@[edges@.len() - 1] == (a, b));
                }
                assert forall|e: (usize, usize)| #[trigger] edges@.contains(e) <==> (
                e0.contains(e) || (a_lo <= e.0 < a && b_lo <= e.1 < b_hi) || (e.0 == a && b_lo
                    <= e.1 < b + 1)) by {
                    if edges@.contains(e) {
                        let k = choose|k: int| 0 <= k < edges@.len() && edges@[k] == e;
                        if k < before.len() {
                            assert(before[k] == e);
                            assert(before.contains(e));
                        } else {
                            assert(e == (a, b));
                        }
                    }
                    if before.contains(e) {
                        let k = choose|k: int| 0 <= k < before.len() && before[k] == e;
                        assert(edges@[k] == e);
                        assert(edges@.contains(e));
                    }
                    if e0.contains(e) || (a_lo <= e.0 < a && b_lo <= e.1 < b_hi) || (e.0 == a
                        && b_lo <= e.1 < b) {
                        assert(before.contains(e));
                    }
                }
            }
            b = b + 1;
        }
        a = a + 1;
    }
}

/// Takes one configuration apart into `acc`, returning whether it is densely
/// chained.
#[verifier::rlimit(60)]
fn flatten_into(c: SystemConfigs, acc: &mut FlatConfig) -> (dense: bool)
    ensures
        dense == densely_chained(c),
        final(acc).leaves@ == old(acc).leaves@ + leaves(c),
        forall|k: int| 0 <= k < old(acc).edges@.len() ==> final(acc).edges@[k] == old(acc).edges@[k],
        final(acc).edges@.len() >= old(acc).edges@.len(),
        forall|e: (usize, usize)|
            #[trigger] final(acc).edges@.contains(e) <==> old(acc).edges@.contains(e)
                || chain_edges(c, old(acc).leaves@.len() as int).contains((e.0 as int, e.1 as int)),
        forall|k: int|
            old(acc).edges@.len() <= k < final(acc).edges@.len() ==> (#[trigger] (final(acc).edges@[k])).0 < final(acc).leaves@.len() && final(acc).edges@[k].1 < final(acc).leaves@.len(),
        groups_match(
            final(acc).groups@.subrange(
                old(acc).groups@.len() as int,
                final(acc).groups@.len() as int,
            ),
            cond_ranges(c, old(acc).leaves@.len() as int),
        ),
        forall|k: int|
            0 <= k < old(acc).groups@.len() ==> final(acc).groups@[k] == old(acc).groups@[k],
        final(acc).groups@.len() >= old(acc).groups@.len(),
    decreases c,
{
    let ghost base0 = acc.leaves@.len() as int;
    let ghost g0 = acc.groups@;
    match c {
        SystemConfigs::Single(cfg) => {
            acc.leaves.push(cfg);
            proof {
                assert(acc.leaves@ =~= acc.leaves@.subrange(0, base0) + leaves(c));
                assert(acc.groups@.subrange(g0.len() as int, acc.groups@.len() as int)
                    =~= Seq::<CondGroup>::empty());
            }
            true
        },
        SystemConfigs::Group(g) => {
            let GroupConfig { members, chained, collective_conditions } = g;
            let base = acc.leaves.len();
            let pair = flatten_members(members, chained, None, acc);
            let ghost gmid = acc.groups@;
            let has_collective = collective_conditions.len() > 0;
            if has_collective {
                let end = acc.leaves.len();
                acc.groups.push(CondGroup { conditions: collective_conditions, start: base, end });
            }
            proof {
                let added = acc.groups@.subrange(g0.len() as int, acc.groups@.len() as int);
                let want = cond_ranges(c, base0);
                assert(groups_match(added, want)) by {
                    let inner = gmid.subrange(g0.len() as int, gmid.len() as int);
                    assert(groups_match(inner, member_cond_ranges(members, base0)));
                    if has_collective {
                        assert(added =~= inner.push(acc.groups@.last()));
                    } else {
                        assert(added =~= inner);
                    }
                }
            }
            if chained {
                pair.0
            } else {
                pair.1
            }
        },
    }
}

/// Takes a member list apart into `acc`, laying it out after the member
/// described by `prev` (its absolute start index and density). Returns
/// whether all members are densely chained, and whether the list is one lone
/// densely chained member.
#[verifier::rlimit(100)]
fn flatten_members(
    ml: MemberList,
    chained: bool,
    prev: Option<(usize, bool)>,
    acc: &mut FlatConfig,
) -> (dense: (bool, bool))
    requires
        prev matches Some(p) ==> p.0 <= old(acc).leaves@.len(),
    ensures
        dense.0 == all_densely_chained(ml),
        dense.1 == match ml {
            MemberList::Cons(h, t) => *t is Nil && densely_chained(*h),
            MemberList::Nil => false,
        },
        final(acc).leaves@ == old(acc).leaves@ + leaves_of(ml),
        forall|k: int| 0 <= k < old(acc).edges@.len() ==> final(acc).edges@[k] == old(acc).edges@[k],
        final(acc).edges@.len() >= old(acc).edges@.len(),
        forall|e: (usize, usize)|
            #[trigger] final(acc).edges@.contains(e) <==> old(acc).edges@.contains(e)
                || member_edges(
                ml,
                chained,
                old(acc).leaves@.len() as int,
                match prev {
                    Some(p) => Some((p.0 as int, p.1)),
                    None => None,
                },
            ).contains((e.0 as int, e.1 as int)),
        forall|k: int|
            old(acc).edges@.len() <= k < final(acc).edges@.len() ==> (#[trigger] (final(acc).edges@[k])).0 < final(acc).leaves@.len() && final(acc).edges@[k].1 < final(acc).leaves@.len(),
        groups_match(
            final(acc).groups@.subrange(
                old(acc).groups@.len() as int,
                final(acc).groups@.len() as int,
            ),
            member_cond_ranges(ml, old(acc).leaves@.len() as int),
        ),
        forall|k: int|
            0 <= k < old(acc).groups@.len() ==> final(acc).groups@[k] == old(acc).groups@[k],
        final(acc).groups@.len() >= old(acc).groups@.len(),
    decreases ml,
{
    let ghost base0 = acc.leaves@.len() as int;
    let ghost e0 = acc.edges@;
    let ghost g0 = acc.groups@;
    let ghost specprev: Option<(int, bool)> = match prev {
        Some(p) => Some((p.0 as int, p.1)),
        None => None,
    };
    match ml {
        MemberList::Nil => {
            proof {
                assert(acc.leaves@ =~= acc.leaves@ + leaves_of(ml));
                assert(acc.groups@.subrange(g0.len() as int, acc.groups@.len() as int)
                    =~= Seq::<CondGroup>::empty());
            }
            (true, false)
        },
        MemberList::Cons(h, t) => {
            let ghost hh = *h;
            let ghost tt = *t;
            let tail_nil = match &*t {
                MemberList::Nil => true,
                _ => false,
            };
            let start = acc.leaves.len();
            let dh = flatten_into(*h, acc);
            let end = acc.leaves.len();
            let ghost e1 = acc.edges@;
            let ghost g1 = acc.groups@;
            let ghost w = if chained {
                match specprev {
                    Some(p) => window_edges(p.0, base0, p.1, base0, end as int, densely_chained(hh)),
                    None => Set::<(int, int)>::empty(),
                }
            } else {
                Set::<(int, int)>::empty()
            };
            if chained {
                match prev {
                    Some((ps, pd)) => {
                        if ps < start && start < end {
                            let a_lo = if pd {
                                start - 1
                            } else {
                                ps
                            };
                            let b_hi = if dh {
                                start + 1
                            } else {
                                end
                            };
                            push_rect(&mut acc.edges, a_lo, start, start, b_hi);
                            proof {
                                assert forall|e: (usize, usize)| (a_lo <= e.0 < start && start
                                    <= e.1 < b_hi) == w.contains((e.0 as int, e.1 as int)) by {}
                            }
                        } else {
                            proof {
                                assert forall|e: (usize, usize)| !w.contains(
                                    (e.0 as int, e.1 as int),
                                ) by {}
                            }
                        }
                    },
                    None => {},
                }
            }
            let ghost e2 = acc.edges@;
            let rest = flatten_members(*t, chained, Some((start, dh)), acc);
            proof {
                assert(acc.leaves@ =~= (acc.leaves@.subrange(0, base0) + leaves_of(ml)));
                let me = member_edges(ml, chained, base0, specprev);
                let rest_edges = member_edges(
                    tt,
                    chained,
                    end as int,
                    Some((base0, densely_chained(hh))),
                );
                assert(me == w.union(chain_edges(hh, base0)).union(rest_edges));
                assert forall|e: (usize, usize)| #[trigger] acc.edges@.contains(e) <==> (
                e0.contains(e) || me.contains((e.0 as int, e.1 as int))) by {
                    let ei = (e.0 as int, e.1 as int);
                    assert(acc.edges@.contains(e) <==> e2.contains(e) || rest_edges.contains(ei));
                    assert(e2.contains(e) <==> e1.contains(e) || w.contains(ei));
                    assert(e1.contains(e) <==> e0.contains(e) || chain_edges(hh, base0).contains(
                        ei,
                    ));
                }
                let added = acc.groups@.subrange(g0.len() as int, acc.groups@.len() as int);
                assert(groups_match(added, member_cond_ranges(ml, base0))) by {
                    let head_part = g1.subrange(g0.len() as int, g1.len() as int);
                    let tail_part = acc.groups@.subrange(g1.len() as int, acc.groups@.len() as int);
                    assert(groups_match(head_part, cond_ranges(hh, base0)));
                    assert(groups_match(tail_part, member_cond_ranges(tt, end as int)));
                    assert(added =~= head_part + tail_part);
                }
            }
            (dh && rest.0, tail_nil && dh)
        },
    }
}

/// Takes a configuration apart: leaves in traversal order, chain edges over
/// leaf indices, and collective condition ranges.
pub fn flatten(c: SystemConfigs) -> (f: FlatConfig)
    ensures
        f.leaves@ == leaves(c),
        forall|e: (usize, usize)|
            f.edges@.contains(e) <==> chain_edges(c, 0).contains((e.0 as int, e.1 as int)),
        forall|k: int|
            0 <= k < f.edges@.len() ==> (#[trigger] f.edges@[k]).0 < f.leaves@.len()
                && f.edges@[k].1 < f.leaves@.len(),
        groups_match(f.groups@, cond_ranges(c, 0)),
{
    let mut acc = FlatConfig { leaves: Vec::new(), edges: Vec::new(), groups: Vec::new() };
    let _ = flatten_into(c, &mut acc);
    proof {
        assert(acc.leaves@ =~= leaves(c));
        assert(acc.groups@.subrange(0, acc.groups@.len() as int) =~= acc.groups@);
    }
    acc
}

// ---------------------------------------------------------------------------
// Set configurations.
// ---------------------------------------------------------------------------

/// Configuration of one named set: its memberships, ordering, whitelist and
/// run conditions.
pub struct SetConfig {
    /// The set's identity.
    pub key: u64,
    /// Named sets this set is placed in.
    pub in_sets: Vec<u64>,
    /// Targets the set must run before.
    pub before: Vec<OrderTarget>,
    /// Targets the set must run after.
    pub after: Vec<OrderTarget>,
    /// Targets whose access conflicts with members of this set are no
    /// diagnostic.
    pub ambiguous_with: Vec<OrderTarget>,
    /// Run conditions gating every system inside the set.
    pub conditions: Vec<Condition>,
}

impl SetConfig {
    /// A fresh configuration for the named set.
    pub fn new(key: u64) -> (r: SetConfig)
        ensures
            r.key == key,
            r.in_sets@.len() == 0,
            r.before@.len() == 0,
            r.after@.len() == 0,
            r.ambiguous_with@.len() == 0,
            r.conditions@.len() == 0,
    {
        SetConfig {
            key,
            in_sets: Vec::new(),
            before: Vec::new(),
            after: Vec::new(),
            ambiguous_with: Vec::new(),
            conditions: Vec::new(),
        }
    }

    /// Places the set in another named set.
    pub fn in_set(self, key: u64) -> (r: SetConfig)
        ensures
            r.key == self.key,
            r.in_sets@ == self.in_sets@.push(key),
            r.before == self.before,
            r.after == self.after,
            r.ambiguous_with == self.ambiguous_with,
            r.conditions == self.conditions,
    {
        let SetConfig { key: k, mut in_sets, before, after, ambiguous_with, conditions } = self;
        in_sets.push(key);
        SetConfig { key: k, in_sets, before, after, ambiguous_with, conditions }
    }

    /// Orders the set before the target.
    pub fn before(self, target: OrderTarget) -> (r: SetConfig)
        ensures
            r.key == self.key,
            r.in_sets == self.in_sets,
            r.before@ == self.before@.push(target),
            r.after == self.after,
            r.ambiguous_with == self.ambiguous_with,
            r.conditions == self.conditions,
    {
        let SetConfig { key, in_sets, mut before, after, ambiguous_with, conditions } = self;
        before.push(target);
        SetConfig { key, in_sets, before, after, ambiguous_with, conditions }
    }

    /// Orders the set after the target.
    pub fn after(self, target: OrderTarget) -> (r: SetConfig)
        ensures
            r.key == self.key,
            r.in_sets == self.in_sets,
            r.before == self.before,
            r.after@ == self.after@.push(target),
            r.ambiguous_with == self.ambiguous_with,
            r.conditions == self.conditions,
    {
        let SetConfig { key, in_sets, before, mut after, ambiguous_with, conditions } = self;
        after.push(target);
        SetConfig { key, in_sets, before, after, ambiguous_with, conditions }
    }

    /// Suppresses conflict diagnostics between members of this set and the
    /// target.
    pub fn ambiguous_with(self, target: OrderTarget) -> (r: SetConfig)
        ensures
            r.key == self.key,
            r.in_sets == self.in_sets,
            r.before == self.before,
            r.after == self.after,
            r.ambiguous_with@ == self.ambiguous_with@.push(target),
            r.conditions == self.conditions,
    {
        let SetConfig { key, in_sets, before, after, mut ambiguous_with, conditions } = self;
        ambiguous_with.push(target);
        SetConfig { key, in_sets, before, after, ambiguous_with, conditions }
    }

    /// Gates every system inside the set with the condition, evaluated once
    /// per tick.
    pub fn run_if(self, cond: Condition) -> (r: SetConfig)
        ensures
            r.key == self.key,
            r.in_sets == self.in_sets,
            r.before == self.before,
            r.after == self.after,
            r.ambiguous_with == self.ambiguous_with,
            r.conditions@ == self.conditions@.push(cond),
    {
        let SetConfig { key, in_sets, before, after, ambiguous_with, mut conditions } = self;
        conditions.push(cond);
        SetConfig { key, in_sets, before, after, ambiguous_with, conditions }
    }
}

} // verus!
