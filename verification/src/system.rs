//! System bodies, declared access sets, and run conditions.
//!
//! A system is a capability over the [`World`]: an invocable body, a declared
//! access set (typed reads and writes plus an "exclusive World" bit), and a
//! static type key shared by every instance built from the same constructor.
//! Bodies and conditions are small tagged unions over the world's resources.

use vstd::prelude::*;
use crate::world::{ResourceData, World};

verus! {

/// What a system body does to the world when invoked.
#[derive(Clone, Copy)]
pub enum SystemAction {
    /// Does nothing; a placeholder body.
    Idle,
    /// Appends a tag to a list resource.
    PushValue(usize, u32),
    /// Adds one to a counter resource through a shared borrow.
    IncrementCounter(usize),
    /// Writes a flag resource.
    SetFlag(usize, bool),
}

impl SystemAction {
    /// The resources the action touches exist and have the right shape.
    pub open spec fn valid_for(self, w: World) -> bool {
        match self {
            SystemAction::Idle => true,
            SystemAction::PushValue(r, _) => w.list_at(r),
            SystemAction::IncrementCounter(r) => w.count_at(r),
            SystemAction::SetFlag(r, _) => w.flag_at(r),
        }
    }

    /// Actions never remove or re-shape resources, so validity of anything
    /// is preserved across an application.
    pub open spec fn preserves_shape(pre: World, post: World) -> bool {
        &&& post.slots@.len() == pre.slots@.len()
        &&& forall|r: int|
            0 <= r < pre.slots@.len() ==> ((#[trigger] post.slots@[r]).data is Flag <==> pre.slots@[
                r
            ].data is Flag) && (post.slots@[r].data is Count <==> pre.slots@[r].data is Count) && (
            post.slots@[r].data is List <==> pre.slots@[r].data is List)
    }

    /// What applying the action does to the world: the touched slot's new
    /// contents, the frame over every other slot, and the change tick's
    /// advance are all pinned.
    pub open spec fn applied(self, pre: World, post: World) -> bool {
        &&& post.slots@.len() == pre.slots@.len()
        &&& match self {
            SystemAction::Idle => post == pre,
            SystemAction::PushValue(r, v) => {
                &&& post.slots@[r as int].data is List
                &&& post.slots@[r as int].data->List_0@ == pre.slots@[r as int].data->List_0@.push(
                    v,
                )
                &&& post.slots@[r as int].added == pre.slots@[r as int].added
                &&& post.slots@[r as int].changed == pre.tick
                &&& forall|q: int|
                    0 <= q < pre.slots@.len() && q != r ==> post.slots@[q] == pre.slots@[q]
                &&& post.tick == crate::world::next_tick(pre.tick)
            },
            SystemAction::IncrementCounter(r) => {
                &&& post.slots@[r as int].data == ResourceData::Count(
                    if pre.slots@[r as int].data->Count_0 < u32::MAX {
                        (pre.slots@[r as int].data->Count_0 + 1) as u32
                    } else {
                        u32::MAX
                    },
                )
                &&& post.slots@[r as int].added == pre.slots@[r as int].added
                &&& post.slots@[r as int].changed == pre.slots@[r as int].changed
                &&& forall|q: int|
                    0 <= q < pre.slots@.len() && q != r ==> post.slots@[q] == pre.slots@[q]
                &&& post.tick == pre.tick
            },
            SystemAction::SetFlag(r, v) => {
                &&& post.slots@[r as int].data == ResourceData::Flag(v)
                &&& post.slots@[r as int].added == pre.slots@[r as int].added
                &&& post.slots@[r as int].changed == pre.tick
                &&& forall|q: int|
                    0 <= q < pre.slots@.len() && q != r ==> post.slots@[q] == pre.slots@[q]
                &&& post.tick == crate::world::next_tick(pre.tick)
            },
        }
    }

    /// Invokes the body against the world.
    pub fn apply(&self, w: &mut World)
        requires
            self.valid_for(*old(w)),
            old(w).ticks_wf(),
        ensures
            final(w).ticks_wf(),
            SystemAction::preserves_shape(*old(w), *final(w)),
            self.applied(*old(w), *final(w)),
    {
        match self {
            SystemAction::Idle => {
            },
            SystemAction::PushValue(r, v) => {
                w.push_list(*r, *v);
            },
            SystemAction::IncrementCounter(r) => {
                w.increment_counter(*r);
            },
            SystemAction::SetFlag(r, v) => {
                w.set_flag(*r, *v);
            },
        }
    }
}

/// Shape preservation composes across successive applications.
pub proof fn lemma_shape_trans(a: World, b: World, c: World)
    requires
        SystemAction::preserves_shape(a, b),
        SystemAction::preserves_shape(b, c),
    ensures
        SystemAction::preserves_shape(a, c),
{
    assert forall|r: int|
        0 <= r < a.slots@.len() implies ((#[trigger] c.slots@[r]).data is Flag <==> a.slots@[r].data
        is Flag) && (c.slots@[r].data is Count <==> a.slots@[r].data is Count) && (c.slots@[r].data
        is List <==> a.slots@[r].data is List) by {
        assert(b.slots@[r].data is Flag <==> a.slots@[r].data is Flag);
        assert(b.slots@[r].data is Count <==> a.slots@[r].data is Count);
        assert(b.slots@[r].data is List <==> a.slots@[r].data is List);
    }
}

/// The declared access set and identity of one system instance.
pub struct SystemDesc {
    /// The invocable body.
    pub action: SystemAction,
    /// Resources the body reads.
    pub reads: Vec<usize>,
    /// Resources the body writes.
    pub writes: Vec<usize>,
    /// The body needs the whole world to itself.
    pub exclusive: bool,
    /// Identity of the static type the instance was built from; every
    /// instance of one constructor shares this key.
    pub type_key: u64,
}

/// Two access sets cannot be live at once: either side is exclusive, or some
/// resource is written by one side and touched by the other.
pub open spec fn accesses_conflict(a: SystemDesc, b: SystemDesc) -> bool {
    ||| a.exclusive
    ||| b.exclusive
    ||| exists|t: usize|
        #[trigger] a.writes@.contains(t) && (b.writes@.contains(t) || b.reads@.contains(t))
    ||| exists|t: usize|
        #[trigger] b.writes@.contains(t) && a.reads@.contains(t)
}

/// Whether `v` holds `x`.
fn vec_contains(v: &Vec<usize>, x: usize) -> (r: bool)
    ensures
        r == v@.contains(x),
{
    let mut i: usize = 0;
    while i < v.len()
        invariant
            i <= v@.len(),
            forall|k: int| 0 <= k < i ==> v@[k] != x,
        decreases v@.len() - i,
    {
        if v[i] == x {
            return true;
        }
        i = i + 1;
    }
    false
}

/// Whether some element of `xs` is written by `a` and touched by the other
/// side's list.
fn any_overlap(xs: &Vec<usize>, ys: &Vec<usize>) -> (r: bool)
    ensures
        r == exists|t: usize| #[trigger] xs@.contains(t) && ys@.contains(t),
{
    let mut i: usize = 0;
    while i < xs.len()
        invariant
            i <= xs@.len(),
            forall|k: int| 0 <= k < i ==> !ys@.contains(#[trigger] xs@[k]),
        decreases xs@.len() - i,
    {
        if vec_contains(ys, xs[i]) {
            proof {
                assert(xs@.contains(xs@[i as int]));
            }
            return true;
        }
        i = i + 1;
    }
    proof {
        if exists|t: usize| #[trigger] xs@.contains(t) && ys@.contains(t) {
            let t = choose|t: usize| #[trigger] xs@.contains(t) && ys@.contains(t);
            let k = choose|k: int| 0 <= k < xs@.len() && xs@[k] == t;
            assert(!ys@.contains(xs@[k]));
        }
    }
    false
}

/// Decides the conflict predicate between two access sets.
pub fn conflict(a: &SystemDesc, b: &SystemDesc) -> (r: bool)
    ensures
        r == accesses_conflict(*a, *b),
{
    if a.exclusive || b.exclusive {
        return true;
    }
    if any_overlap(&a.writes, &b.writes) {
        return true;
    }
    if any_overlap(&a.writes, &b.reads) {
        return true;
    }
    if any_overlap(&b.writes, &a.reads) {
        return true;
    }
    false
}

/// What a run condition observes.
#[derive(Clone, Copy)]
pub enum ConditionKind {
    /// A constant predicate.
    Always(bool),
    /// True when the flag resource holds `true`.
    FlagIsTrue(usize),
    /// True when the resource was written (or added) at or after the tick the
    /// condition last observed.
    Changed(usize),
}

/// A run condition: a predicate system over the world. It carries the change
/// tick it last observed, which advances on every invocation, and a count of
/// its invocations.
#[derive(Clone, Copy)]
pub struct Condition {
    pub kind: ConditionKind,
    /// The world tick up to which this condition has already seen changes.
    pub last_seen: u64,
    /// How often the condition has been invoked, saturating.
    pub invocations: u64,
}

impl Condition {
    /// The resource the condition reads exists and has the right shape.
    pub open spec fn valid_for(self, w: World) -> bool {
        match self.kind {
            ConditionKind::Always(_) => true,
            ConditionKind::FlagIsTrue(r) => w.flag_at(r),
            ConditionKind::Changed(r) => r < w.slots@.len(),
        }
    }

    /// The boolean the condition returns against `w`, given its state.
    pub open spec fn result_in(self, w: World) -> bool {
        match self.kind {
            ConditionKind::Always(b) => b,
            ConditionKind::FlagIsTrue(r) => w.slots@[r as int].data == ResourceData::Flag(true),
            ConditionKind::Changed(r) => w.slots@[r as int].changed >= self.last_seen,
        }
    }

    /// A constant condition.
    pub fn always(value: bool) -> (c: Condition)
        ensures
            c == (Condition {
                kind: ConditionKind::Always(value),
                last_seen: 0,
                invocations: 0,
            }),
    {
        Condition { kind: ConditionKind::Always(value), last_seen: 0, invocations: 0 }
    }

    /// A condition reading a flag resource.
    pub fn flag_is_true(r: usize) -> (c: Condition)
        ensures
            c == (Condition {
                kind: ConditionKind::FlagIsTrue(r),
                last_seen: 0,
                invocations: 0,
            }),
    {
        Condition { kind: ConditionKind::FlagIsTrue(r), last_seen: 0, invocations: 0 }
    }

    /// A change-detection condition over a resource.
    pub fn resource_changed(r: usize) -> (c: Condition)
        ensures
            c == (Condition {
                kind: ConditionKind::Changed(r),
                last_seen: 0,
                invocations: 0,
            }),
    {
        Condition { kind: ConditionKind::Changed(r), last_seen: 0, invocations: 0 }
    }

    /// Invokes the condition once: returns its verdict against the current
    /// world, advances the observed tick to the world's tick, and counts the
    /// invocation.
    pub fn evaluate(&mut self, w: &World) -> (r: bool)
        requires
            old(self).valid_for(*w),
        ensures
            r == old(self).result_in(*w),
            final(self).kind == old(self).kind,
            final(self).last_seen == w.tick,
            final(self).invocations == if old(self).invocations < u64::MAX {
                (old(self).invocations + 1) as u64
            } else {
                u64::MAX
            },
    {
        let verdict = match &self.kind {
            ConditionKind::Always(b) => *b,
            ConditionKind::FlagIsTrue(r) => w.flag_value(*r),
            ConditionKind::Changed(r) => w.slots[*r].changed >= self.last_seen,
        };
        self.last_seen = w.tick;
        if self.invocations < u64::MAX {
            self.invocations = self.invocations + 1;
        }
        verdict
    }
}

/// One registered system instance: its description and its own run conditions.
pub struct SystemNode {
    pub desc: SystemDesc,
    pub conditions: Vec<Condition>,
}

} // verus!
