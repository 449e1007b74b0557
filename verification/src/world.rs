//! A minimal resource store standing in for the runtime the scheduler drives.
//!
//! The scheduler itself only needs a handle it can hand to system bodies, a way
//! to read and write typed resources, and a monotonically advancing change
//! tick. Each resource slot remembers the tick at which it was added and last
//! written, which is what run conditions compare against for change detection.

use vstd::prelude::*;

verus! {

/// The payload of one resource slot.
pub enum ResourceData {
    /// A boolean resource, as read by flag run conditions.
    Flag(bool),
    /// A saturating event counter.
    Count(u32),
    /// An append-only log of tags, used to observe execution order.
    List(Vec<u32>),
}

/// One resource slot together with its change bookkeeping.
pub struct ResourceSlot {
    pub data: ResourceData,
    /// Change tick at which the resource was inserted.
    pub added: u64,
    /// Change tick of the most recent write.
    pub changed: u64,
}

/// A store of resources with a monotonically advancing change tick.
pub struct World {
    pub slots: Vec<ResourceSlot>,
    pub tick: u64,
}

/// The next value of the change tick; it saturates rather than wraps.
pub open spec fn next_tick(t: u64) -> u64 {
    if t < u64::MAX {
        (t + 1) as u64
    } else {
        t
    }
}

impl World {
    /// Resource `r` exists and holds a flag.
    pub open spec fn flag_at(self, r: usize) -> bool {
        r < self.slots@.len() && self.slots@[r as int].data is Flag
    }

    /// Resource `r` exists and holds a counter.
    pub open spec fn count_at(self, r: usize) -> bool {
        r < self.slots@.len() && self.slots@[r as int].data is Count
    }

    /// Resource `r` exists and holds a list.
    pub open spec fn list_at(self, r: usize) -> bool {
        r < self.slots@.len() && self.slots@[r as int].data is List
    }

    /// Change ticks recorded in the slots never run ahead of the world tick.
    pub open spec fn ticks_wf(self) -> bool {
        forall|r: int|
            0 <= r < self.slots@.len() ==> (#[trigger] self.slots@[r]).changed < self.tick
                || self.tick == u64::MAX
    }

    pub fn new() -> (w: World)
        ensures
            w.slots@.len() == 0,
            w.tick == 1,
            w.ticks_wf(),
    {
        World { slots: Vec::new(), tick: 1 }
    }

    fn advance_tick(&mut self)
        ensures
            final(self).tick == next_tick(old(self).tick),
            final(self).slots == old(self).slots,
    {
        if self.tick < u64::MAX {
            self.tick = self.tick + 1;
        }
    }

    fn insert(&mut self, data: ResourceData) -> (r: usize)
        requires
            old(self).ticks_wf(),
        ensures
            final(self).ticks_wf(),
            r == old(self).slots@.len(),
            final(self).slots@ == old(self).slots@.push(
                ResourceSlot { data, added: old(self).tick, changed: old(self).tick },
            ),
            final(self).tick == next_tick(old(self).tick),
    {
        let r = self.slots.len();
        let t = self.tick;
        self.slots.push(ResourceSlot { data, added: t, changed: t });
        self.advance_tick();
        r
    }

    /// Inserts a flag resource, stamping it with the current change tick.
    pub fn insert_flag(&mut self, value: bool) -> (r: usize)
        requires
            old(self).ticks_wf(),
        ensures
            final(self).ticks_wf(),
            r == old(self).slots@.len(),
            final(self).slots@ == old(self).slots@.push(
                ResourceSlot {
                    data: ResourceData::Flag(value),
                    added: old(self).tick,
                    changed: old(self).tick,
                },
            ),
            final(self).tick == next_tick(old(self).tick),
    {
        self.insert(ResourceData::Flag(value))
    }

    /// Inserts a counter resource starting at zero.
    pub fn insert_counter(&mut self) -> (r: usize)
        requires
            old(self).ticks_wf(),
        ensures
            final(self).ticks_wf(),
            r == old(self).slots@.len(),
            final(self).slots@ == old(self).slots@.push(
                ResourceSlot {
                    data: ResourceData::Count(0),
                    added: old(self).tick,
                    changed: old(self).tick,
                },
            ),
            final(self).tick == next_tick(old(self).tick),
    {
        self.insert(ResourceData::Count(0))
    }

    /// Inserts an empty list resource.
    pub fn insert_list(&mut self) -> (r: usize)
        requires
            old(self).ticks_wf(),
        ensures
            final(self).ticks_wf(),
            r == old(self).slots@.len(),
            final(self).slots@[r as int].data is List,
            final(self).slots@[r as int].data->List_0@.len() == 0,
            final(self).slots@.len() == old(self).slots@.len() + 1,
            forall|q: int|
                0 <= q < old(self).slots@.len() ==> final(self).slots@[q] == old(self).slots@[q],
            final(self).tick == next_tick(old(self).tick),
    {
        self.insert(ResourceData::List(Vec::new()))
    }

    /// Reads a flag resource.
    pub fn flag_value(&self, r: usize) -> (v: bool)
        requires
            self.flag_at(r),
        ensures
            self.slots@[r as int].data == ResourceData::Flag(v),
    {
        match &self.slots[r].data {
            ResourceData::Flag(v) => *v,
            _ => {
                proof {
                    assert(false);
                }
                false
            },
        }
    }

    /// Reads a counter resource.
    pub fn counter_value(&self, r: usize) -> (v: u32)
        requires
            self.count_at(r),
        ensures
            self.slots@[r as int].data == ResourceData::Count(v),
    {
        match &self.slots[r].data {
            ResourceData::Count(v) => *v,
            _ => {
                proof {
                    assert(false);
                }
                0
            },
        }
    }

    /// Copies the contents of a list resource out.
    pub fn list_values(&self, r: usize) -> (v: Vec<u32>)
        requires
            self.list_at(r),
        ensures
            self.slots@[r as int].data->List_0@ == v@,
    {
        match &self.slots[r].data {
            ResourceData::List(items) => {
                let mut out: Vec<u32> = Vec::new();
                let mut i: usize = 0;
                while i < items.len()
                    invariant
                        i <= items@.len(),
                        out@ == items@.subrange(0, i as int),
                    decreases items@.len() - i,
                {
                    out.push(items[i]);
                    proof {
                        assert(out@ =~= items@.subrange(0, i + 1));
                    }
                    i = i + 1;
                }
                proof {
                    assert(out@ =~= items@);
                }
                out
            },
            _ => {
                proof {
                    assert(false);
                }
                Vec::new()
            },
        }
    }

    /// Writes a flag resource, stamping the slot with the current tick.
    pub fn set_flag(&mut self, r: usize, value: bool)
        requires
            old(self).flag_at(r),
            old(self).ticks_wf(),
        ensures
            final(self).ticks_wf(),
            final(self).slots@ == old(self).slots@.update(
                r as int,
                ResourceSlot {
                    data: ResourceData::Flag(value),
                    added: old(self).slots@[r as int].added,
                    changed: old(self).tick,
                },
            ),
            final(self).tick == next_tick(old(self).tick),
    {
        let t = self.tick;
        let added = self.slots[r].added;
        self.slots[r] = ResourceSlot { data: ResourceData::Flag(value), added, changed: t };
        self.advance_tick();
    }

    /// Appends a tag to a list resource, stamping the slot with the current
    /// tick.
    pub fn push_list(&mut self, r: usize, value: u32)
        requires
            old(self).list_at(r),
            old(self).ticks_wf(),
        ensures
            final(self).ticks_wf(),
            final(self).slots@.len() == old(self).slots@.len(),
            final(self).slots@[r as int].data is List,
            final(self).slots@[r as int].data->List_0@ == old(
                self,
            ).slots@[r as int].data->List_0@.push(value),
            final(self).slots@[r as int].added == old(self).slots@[r as int].added,
            final(self).slots@[r as int].changed == old(self).tick,
            forall|q: int|
                0 <= q < old(self).slots@.len() && q != r ==> final(self).slots@[q] == old(
                    self,
                ).slots@[q],
            final(self).tick == next_tick(old(self).tick),
    {
        let t = self.tick;
        match &mut self.slots[r].data {
            ResourceData::List(items) => {
                items.push(value);
            },
            _ => {
                proof {
                    assert(false);
                }
            },
        }
        self.slots[r].changed = t;
        self.advance_tick();
    }

    /// Adds one to a counter resource, saturating at the counter's maximum.
    /// Mirrors an atomic add through a shared borrow, so the change tick of
    /// the slot is left alone.
    pub fn increment_counter(&mut self, r: usize)
        requires
            old(self).count_at(r),
            old(self).ticks_wf(),
        ensures
            final(self).ticks_wf(),
            final(self).slots@.len() == old(self).slots@.len(),
            final(self).slots@[r as int].data == ResourceData::Count(
                if old(self).slots@[r as int].data->Count_0 < u32::MAX {
                    (old(self).slots@[r as int].data->Count_0 + 1) as u32
                } else {
                    u32::MAX
                },
            ),
            final(self).slots@[r as int].added == old(self).slots@[r as int].added,
            final(self).slots@[r as int].changed == old(self).slots@[r as int].changed,
            forall|q: int|
                0 <= q < old(self).slots@.len() && q != r ==> final(self).slots@[q] == old(
                    self,
                ).slots@[q],
            final(self).tick == old(self).tick,
    {
        match &mut self.slots[r].data {
            ResourceData::Count(v) => {
                if *v < u32::MAX {
                    *v = *v + 1;
                }
            },
            _ => {
                proof {
                    assert(false);
                }
            },
        }
    }

    /// Empties a list resource, stamping the slot with the current tick.
    pub fn clear_list(&mut self, r: usize)
        requires
            old(self).list_at(r),
            old(self).ticks_wf(),
        ensures
            final(self).ticks_wf(),
            final(self).slots@.len() == old(self).slots@.len(),
            final(self).slots@[r as int].data is List,
            final(self).slots@[r as int].data->List_0@.len() == 0,
            final(self).slots@[r as int].changed == old(self).tick,
            forall|q: int|
                0 <= q < old(self).slots@.len() && q != r ==> final(self).slots@[q] == old(
                    self,
                ).slots@[q],
            final(self).tick == next_tick(old(self).tick),
    {
        let t = self.tick;
        let added = self.slots[r].added;
        self.slots[r] = ResourceSlot { data: ResourceData::List(Vec::new()), added, changed: t };
        self.advance_tick();
    }
}

} // verus!
