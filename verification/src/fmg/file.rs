//! Raw message table manipulation.
//!
//! A message table holds localized-text records addressed by a 32-bit id.
//! A sorted array of id-range groups maps each id onto one slot of a flat
//! array of byte offsets, relative to the table's base address; a zero slot
//! is a hole, the sole free-space mechanism. Holes are filled by insertion
//! and re-opened by deletion; capacity grows by reallocating the table with
//! fresh all-hole groups appended after the triggering anchor id.

use vstd::prelude::*;
use vstd::pervasive::VecAdditionalExecFns;

verus! {

/// Byte size of the message table header.
pub const MSG_HEADER_SIZE: u32 = 40;

/// Byte size of one group record.
pub const MSG_GROUP_SIZE: u32 = 16;

/// The most messages a table can hold: the group array together with the
/// header must stay addressable by a 32-bit byte size.
pub const MAX_MSG_COUNT: u32 = (0xffff_ffff - 40) / 16;

/// One id-range group: the ids `first_id..=last_id` map onto the contiguous
/// run of slots starting at `offset` in the flat offset array.
#[derive(Clone, Copy, PartialEq, Eq, Structural, Debug)]
pub struct MsgGroup {
    pub offset: u32,
    pub first_id: u32,
    pub last_id: u32,
}

/// The in-memory form of a message table: the header fields the engine
/// reads, the base address the table lives at, the sorted group array and
/// the flat offset array. A zero offset slot is a hole.
pub struct FileHeader {
    /// Endianness flag carried in the header.
    pub endianness: u8,
    /// Format version carried in the header.
    pub version: u16,
    /// Byte size of the table's buffer.
    pub file_size: u32,
    /// The largest id span a synthesized group may cover.
    pub max_group_size: u32,
    /// The address the table lives at; record pointers resolve as
    /// `base + offset` in wrapping arithmetic.
    pub base: u64,
    /// The id-range groups, sorted by id and non-overlapping.
    pub groups: Vec<MsgGroup>,
    /// The flat array of record byte offsets; zero denotes a hole.
    pub msg_offsets: Vec<u64>,
}

/// Byte addresses add in wrapping 64-bit arithmetic.
pub open spec fn wadd(a: u64, b: u64) -> u64 {
    vstd::wrapping::u64_specs::wrapping_add(a, b)
}

/// Byte addresses subtract in wrapping 64-bit arithmetic.
pub open spec fn wsub(a: u64, b: u64) -> u64 {
    vstd::wrapping::u64_specs::wrapping_sub(a, b)
}

impl FileHeader {
    /// Well-formedness of a message table: every group's range is ascending,
    /// consecutive groups' id ranges are disjoint and sorted, every group's
    /// slot run stays inside the offset array, distinct groups' slot runs
    /// never overlap, and both arrays stay addressable by 32-bit counts.
    pub open spec fn wf(self) -> bool {
        let g = self.groups@;
        &&& self.msg_offsets@.len() <= u32::MAX
        &&& g.len() <= u32::MAX
        &&& forall|i: int| 0 <= i < g.len() ==> #[trigger] g[i].first_id <= g[i].last_id
        &&& forall|i: int| 0 <= i < g.len() - 1 ==> #[trigger] g[i].last_id < g[i + 1].first_id
        &&& forall|i: int|
            0 <= i < g.len() ==> #[trigger] g[i].offset + (g[i].last_id - g[i].first_id)
                < self.msg_offsets@.len()
        &&& forall|i: int, j: int|
            0 <= i < g.len() && 0 <= j < g.len() && i != j ==> (#[trigger] g[i].offset + (
            g[i].last_id - g[i].first_id) < #[trigger] g[j].offset || g[j].offset + (g[j].last_id
                - g[j].first_id) < g[i].offset)
    }

    /// Whether group `i` covers `id`.
    pub open spec fn covers(self, i: int, id: u32) -> bool {
        0 <= i < self.groups@.len() && self.groups@[i].first_id <= id && id
            <= self.groups@[i].last_id
    }

    /// Whether any group covers `id`.
    pub open spec fn covered(self, id: u32) -> bool {
        exists|i: int| self.covers(i, id)
    }

    /// The group covering `id`; meaningful when `covered(id)` holds and the
    /// table is well formed.
    pub open spec fn group_of(self, id: u32) -> int {
        choose|i: int| self.covers(i, id)
    }

    /// The offset-array position assigned to `id`.
    pub open spec fn slot_of(self, id: u32) -> int {
        let g = self.groups@[self.group_of(id)];
        g.offset + (id - g.first_id)
    }

    /// The byte offset stored for `id`; zero is a hole.
    pub open spec fn stored(self, id: u32) -> u64 {
        self.msg_offsets@[self.slot_of(id)]
    }

    /// Whether `id` is covered by a group and its slot is currently a hole.
    pub open spec fn is_open_slot(self, id: u32) -> bool {
        self.covered(id) && self.stored(id) == 0
    }

    /// What reading the slot at `index` yields: the stored offset resolved
    /// against the base address, unless the slot is absent, a hole, or
    /// resolves to null.
    pub open spec fn data_by_index_spec(self, index: int) -> Option<u64> {
        if !(0 <= index < self.msg_offsets@.len()) {
            None
        } else {
            let off = self.msg_offsets@[index];
            if off == 0 {
                None
            } else if wadd(self.base, off) == 0 {
                None
            } else {
                Some(wadd(self.base, off))
            }
        }
    }

    /// What looking up `id` yields on a well-formed table.
    pub open spec fn lookup_spec(self, id: u32) -> Option<u64> {
        if !self.covered(id) {
            None
        } else {
            self.data_by_index_spec(self.slot_of(id))
        }
    }
}

/// In a well-formed table the id ranges of any two groups in order are
/// disjoint, not only consecutive ones.
pub proof fn lemma_groups_ordered(t: FileHeader, i: int, j: int)
    requires
        t.wf(),
        0 <= i < j < t.groups@.len(),
    ensures
        t.groups@[i].last_id < t.groups@[j].first_id,
    decreases j - i,
{
    if i + 1 < j {
        lemma_groups_ordered(t, i + 1, j);
    }
}

/// In a well-formed table at most one group covers an id.
pub proof fn lemma_group_unique(t: FileHeader, id: u32, i: int, j: int)
    requires
        t.wf(),
        t.covers(i, id),
        t.covers(j, id),
    ensures
        i == j,
{
    if i < j {
        lemma_groups_ordered(t, i, j);
    }
    if j < i {
        lemma_groups_ordered(t, j, i);
    }
}

impl FileHeader {
    /// The offset-array position assigned to `id`, found by a binary search
    /// over the sorted group array.
    pub fn msg_index_by_id(&self, id: u32) -> (r: Option<u32>)
        ensures
            self.wf() ==> match r {
                Some(idx) => self.covered(id) && idx as int == self.slot_of(id),
                None => !self.covered(id),
            },
    {
        let n = self.groups.len();
        if n == 0 {
            return None;
        }
        if id < self.groups[0].first_id || id > self.groups[n - 1].last_id {
            proof {
                if self.wf() && self.covered(id) {
                    let i = self.group_of(id);
                    assert(self.covers(i, id));
                    if 0 < i {
                        lemma_groups_ordered(*self, 0, i);
                    }
                    if i < n - 1 {
                        lemma_groups_ordered(*self, i, n - 1);
                    }
                }
            }
            return None;
        }
        let mut lo: usize = 0;
        let mut hi: usize = n;
        while lo < hi
            invariant
                lo <= hi <= n,
                n == self.groups@.len(),
                self.wf() ==> forall|i: int| 0 <= i < lo ==> #[trigger] self.groups@[i].last_id < id,
                self.wf() ==> forall|i: int|
                    hi <= i < n ==> id < #[trigger] self.groups@[i].first_id,
            decreases hi - lo,
        {
            let mid = lo + (hi - lo) / 2;
            let g = self.groups[mid];
            if g.last_id < id {
                proof {
                    if self.wf() {
                        assert forall|i: int| 0 <= i < mid + 1 implies #[trigger] self.groups@[i].last_id
                            < id by {
                            if i < mid {
                                lemma_groups_ordered(*self, i, mid as int);
                            }
                        }
                    }
                }
                lo = mid + 1;
            } else if g.first_id > id {
                proof {
                    if self.wf() {
                        assert forall|i: int| mid <= i < n implies id < #[trigger] self.groups@[i].first_id
                            by {
                            if mid < i {
                                lemma_groups_ordered(*self, mid as int, i);
                            }
                        }
                    }
                }
                hi = mid;
            } else {
                let idx64 = g.offset as u64 + (id - g.first_id) as u64;
                if idx64 > u32::MAX as u64 {
                    proof {
                        if self.wf() {
                            assert(false);
                        }
                    }
                    return None;
                }
                proof {
                    if self.wf() {
                        assert(self.covers(mid as int, id));
                        lemma_group_unique(*self, id, mid as int, self.group_of(id));
                    }
                }
                return Some(idx64 as u32);
            }
        }
        proof {
            if self.wf() && self.covered(id) {
                let i = self.group_of(id);
                assert(self.covers(i, id));
            }
        }
        None
    }

    /// Reads the slot at `index` and resolves the stored offset against the
    /// table's base address.
    pub fn msg_data_by_index(&self, index: u32) -> (r: Option<u64>)
        ensures
            r == self.data_by_index_spec(index as int),
    {
        if index as usize >= self.msg_offsets.len() {
            return None;
        }
        let off = self.msg_offsets[index as usize];
        if off == 0 {
            return None;
        }
        let p = self.base.wrapping_add(off);
        if p == 0 {
            None
        } else {
            Some(p)
        }
    }

    /// Swaps the slot at `index` for the record at address `data` (null to
    /// open a hole), returning the previous record's resolved pointer.
    pub fn replace_msg_by_index(&mut self, index: u32, data: u64) -> (r: Option<u64>)
        ensures
            r == old(self).data_by_index_spec(index as int),
            final(self).groups@ == old(self).groups@,
            final(self).base == old(self).base,
            final(self).endianness == old(self).endianness,
            final(self).version == old(self).version,
            final(self).file_size == old(self).file_size,
            final(self).max_group_size == old(self).max_group_size,
            (index as int) >= old(self).msg_offsets@.len() ==> final(self).msg_offsets@ == old(
                self,
            ).msg_offsets@,
            (index as int) < old(self).msg_offsets@.len() ==> final(self).msg_offsets@ == old(
                self,
            ).msg_offsets@.update(
                index as int,
                if data == 0 {
                    0u64
                } else {
                    wsub(data, old(self).base)
                },
            ),
    {
        if index as usize >= self.msg_offsets.len() {
            return None;
        }
        let off = self.msg_offsets[index as usize];
        let stored = if data == 0 {
            0
        } else {
            data.wrapping_sub(self.base)
        };
        self.msg_offsets.set(index as usize, stored);
        if off == 0 {
            return None;
        }
        let p = self.base.wrapping_add(off);
        if p == 0 {
            None
        } else {
            Some(p)
        }
    }
}

/// Whether two message tables hold the same value.
pub open spec fn msg_table_unchanged(a: FileHeader, b: FileHeader) -> bool {
    &&& a.endianness == b.endianness
    &&& a.version == b.version
    &&& a.file_size == b.file_size
    &&& a.max_group_size == b.max_group_size
    &&& a.base == b.base
    &&& a.groups@ == b.groups@
    &&& a.msg_offsets@ == b.msg_offsets@
}

/// What a successful [`FileHeader::try_insert_new_after`] does: `newid` is
/// the first id after the anchor whose slot is a hole, and exactly that slot
/// now stores the new record's offset (or stays a hole for a null record).
pub open spec fn insert_after_post(
    old_t: FileHeader,
    new_t: FileHeader,
    after: u32,
    data: u64,
    newid: u32,
) -> bool {
    &&& after < newid
    &&& old_t.is_open_slot(newid)
    &&& forall|x: u32| after < x < newid ==> !old_t.is_open_slot(x)
    &&& new_t.groups@ == old_t.groups@
    &&& new_t.endianness == old_t.endianness
    &&& new_t.version == old_t.version
    &&& new_t.file_size == old_t.file_size
    &&& new_t.max_group_size == old_t.max_group_size
    &&& new_t.base == old_t.base
    &&& new_t.msg_offsets@ == old_t.msg_offsets@.update(
        old_t.slot_of(newid),
        if data == 0 {
            0u64
        } else {
            wsub(data, old_t.base)
        },
    )
}

impl FileHeader {
    /// No id above `after` covered by a group before `gi` has a hole.
    pub open spec fn no_open_before_group(self, after: u32, gi: int) -> bool {
        forall|i: int, x: u32|
            0 <= i < gi && after < x && #[trigger] self.covers(i, x) ==> self.stored(x) != 0
    }

    /// Scans forward from the anchor id for the first hole in the covered id
    /// space and stores the record at address `data` there (null keeps the
    /// slot a hole, reserving the id), returning the id the slot maps to.
    ///
    /// Returns `None`, leaving the table untouched, when every covered id
    /// above the anchor is taken: the signal to grow the table.
    pub fn try_insert_new_after(&mut self, after: u32, data: u64) -> (r: Option<u32>)
        ensures
            old(self).wf() ==> match r {
                Some(newid) => insert_after_post(*old(self), *final(self), after, data, newid),
                None => msg_table_unchanged(*old(self), *final(self)) && (forall|x: u32|
                    x > after ==> !old(self).is_open_slot(x)),
            },
    {
        let ghost old_t = *self;
        let n = self.groups.len();
        let mut lo: usize = 0;
        let mut hi: usize = n;
        while lo < hi
            invariant
                lo <= hi <= n,
                n == self.groups@.len(),
                self.wf() ==> forall|i: int|
                    0 <= i < lo ==> #[trigger] self.groups@[i].last_id <= after,
                self.wf() ==> forall|i: int|
                    hi <= i < n ==> after < #[trigger] self.groups@[i].last_id,
            decreases hi - lo,
        {
            let mid = lo + (hi - lo) / 2;
            if self.groups[mid].last_id <= after {
                proof {
                    if self.wf() {
                        assert forall|i: int| 0 <= i < mid + 1 implies #[trigger] self.groups@[i].last_id
                            <= after by {
                            if i < mid {
                                lemma_groups_ordered(*self, i, mid as int);
                                assert(self.groups@[i].last_id < self.groups@[mid as int].first_id);
                                assert(self.groups@[mid as int].first_id <= self.groups@[mid as int].last_id);
                            }
                        }
                    }
                }
                lo = mid + 1;
            } else {
                proof {
                    if self.wf() {
                        assert forall|i: int| mid <= i < n implies after < #[trigger] self.groups@[i].last_id
                            by {
                            if mid < i {
                                lemma_groups_ordered(*self, mid as int, i);
                            }
                        }
                    }
                }
                hi = mid;
            }
        }
        let mut gi: usize = lo;
        proof {
            if old_t.wf() {
                assert forall|i: int, x: u32|
                    0 <= i < gi && after < x && #[trigger] old_t.covers(i, x) implies old_t.stored(
                    x,
                ) != 0 by {
                    assert(old_t.groups@[i].last_id <= after);
                }
            }
        }
        while gi < n
            invariant
                gi <= n,
                n == self.groups@.len(),
                old_t == *old(self),
                *self == old_t,
                old_t.wf() ==> old_t.no_open_before_group(after, gi as int),
                old_t.wf() ==> forall|i: int|
                    gi <= i < n ==> after < #[trigger] old_t.groups@[i].last_id,
            decreases n - gi,
        {
            let g = self.groups[gi];
            let glast = g.last_id as u64;
            let gfirst = g.first_id as u64;
            if glast < gfirst {
                proof {
                    if old_t.wf() {
                        assert(false);
                    }
                }
                gi = gi + 1;
                continue ;
            }
            let mlen = self.msg_offsets.len();
            let span_end64 = g.offset as u64 + (glast - gfirst);
            if span_end64 >= mlen as u64 {
                proof {
                    if old_t.wf() {
                        assert(false);
                    }
                }
                gi = gi + 1;
                continue ;
            }
            let start64 = if gfirst > after as u64 {
                gfirst
            } else {
                after as u64 + 1
            };
            if start64 > glast {
                proof {
                    if old_t.wf() {
                        assert(after < self.groups@[gi as int].last_id);
                        assert(false);
                    }
                }
                gi = gi + 1;
                continue ;
            }
            let mut id64: u64 = start64;
            while id64 <= glast
                invariant
                    gi < n,
                    n == self.groups@.len(),
                    old_t == *old(self),
                    *self == old_t,
                    g == self.groups@[gi as int],
                    glast == g.last_id as u64,
                    gfirst == g.first_id as u64,
                    gfirst <= glast,
                    mlen == self.msg_offsets@.len(),
                    g.offset as u64 + (glast - gfirst) < mlen as u64,
                    start64 <= id64 <= glast + 1,
                    start64 == if gfirst > after as u64 {
                        gfirst as int
                    } else {
                        after as u64 + 1
                    },
                    old_t.wf() ==> old_t.no_open_before_group(after, gi as int),
                    old_t.wf() ==> forall|x: u32|
                        after < x && #[trigger] old_t.covers(gi as int, x) && (x as u64) < id64
                            ==> old_t.stored(x) != 0,
                decreases glast + 1 - id64,
            {
                let slot64 = g.offset as u64 + (id64 - gfirst);
                let slot = slot64 as usize;
                if self.msg_offsets[slot] == 0 {
                    let stored = if data == 0 {
                        0
                    } else {
                        data.wrapping_sub(self.base)
                    };
                    self.msg_offsets.set(slot, stored);
                    let newid = id64 as u32;
                    proof {
                        if old_t.wf() {
                            assert(old_t.covers(gi as int, newid));
                            lemma_group_unique(old_t, newid, gi as int, old_t.group_of(newid));
                            assert(old_t.slot_of(newid) == slot64 as int);
                            assert(old_t.is_open_slot(newid));
                            assert forall|x: u32| after < x < newid implies !old_t.is_open_slot(
                                x,
                            ) by {
                                if old_t.covered(x) {
                                    let i = old_t.group_of(x);
                                    assert(old_t.covers(i, x));
                                    if i < gi as int {
                                        assert(old_t.stored(x) != 0);
                                    } else if i == gi as int {
                                        assert((x as u64) < id64);
                                        assert(old_t.stored(x) != 0);
                                    } else {
                                        lemma_groups_ordered(old_t, gi as int, i);
                                        assert(old_t.groups@[i].first_id > g.last_id);
                                        assert(false);
                                    }
                                }
                            }
                        }
                    }
                    return Some(newid);
                }
                proof {
                    if old_t.wf() {
                        assert forall|x: u32|
                            after < x && #[trigger] old_t.covers(gi as int, x) && (x as u64) < id64
                                + 1 implies old_t.stored(x) != 0 by {
                            if (x as u64) == id64 {
                                lemma_group_unique(old_t, x, gi as int, old_t.group_of(x));
                                assert(old_t.slot_of(x) == slot64 as int);
                            }
                        }
                    }
                }
                id64 = id64 + 1;
            }
            proof {
                if old_t.wf() {
                    assert forall|i: int, x: u32|
                        0 <= i < gi + 1 && after < x && #[trigger] old_t.covers(i, x) implies old_t.stored(
                        x,
                    ) != 0 by {
                        if i == gi as int {
                            assert((x as u64) >= start64 || (x as u64) < gfirst || x <= after);
                            assert((x as u64) < id64);
                        }
                    }
                }
            }
            gi = gi + 1;
        }
        proof {
            if old_t.wf() {
                assert forall|x: u32| x > after implies !old_t.is_open_slot(x) by {
                    if old_t.covered(x) {
                        let i = old_t.group_of(x);
                        assert(old_t.covers(i, x));
                        assert(old_t.stored(x) != 0);
                    }
                }
            }
        }
        None
    }
}

/// A stored slot rebased from one table base to another: holes stay holes,
/// and a record offset is recomputed so the resolved address is unchanged.
pub open spec fn rebase_slot(off: u64, old_base: u64, new_base: u64) -> u64 {
    if off == 0 {
        0u64
    } else {
        wsub(wadd(old_base, off), new_base)
    }
}

impl FileHeader {
    /// The message capacity growth aims for: doubled, capped at the format
    /// maximum.
    pub open spec fn grow_target(self) -> int {
        let om = self.msg_offsets@.len() as int;
        if 2 * om <= MAX_MSG_COUNT {
            2 * om
        } else {
            MAX_MSG_COUNT as int
        }
    }

    /// The id every synthesized group is placed after: the anchor, or the
    /// last grouped id if that is higher.
    pub open spec fn grow_prev0(self, after: u32) -> int {
        if self.groups@.len() == 0 {
            after as int
        } else if after as int >= self.groups@.last().last_id {
            after as int
        } else {
            self.groups@.last().last_id as int
        }
    }

    /// How many new message slots growth places: the capacity gained, unless
    /// the id space above the placement point runs out first.
    pub open spec fn grow_placed(self, after: u32) -> int {
        let added = self.grow_target() - self.msg_offsets@.len();
        let room = u32::MAX - self.grow_prev0(after);
        if added <= room {
            added
        } else {
            room
        }
    }

    /// Whether growth can proceed: the offset array is addressable, capacity
    /// actually doubles, the grown group array still fits a 32-bit file
    /// size, and the allocator returned a buffer.
    pub open spec fn grow_possible(self, new_base: u64) -> bool {
        let om = self.msg_offsets@.len() as int;
        let added = self.grow_target() - om;
        let mgs = if self.max_group_size >= 1 {
            self.max_group_size as int
        } else {
            1
        };
        let added_groups = (added + mgs - 1) / mgs;
        &&& om <= u32::MAX
        &&& added > 0
        &&& MSG_HEADER_SIZE + MSG_GROUP_SIZE * (self.groups@.len() + added_groups) <= u32::MAX
        &&& new_base != 0
    }
}

/// What [`FileHeader::grow_reallocate`] produces on a well-formed table: a
/// fresh table at `new_base` with every old group and slot preserved (offsets
/// rebased so resolved addresses are unchanged), followed by synthesized
/// all-hole groups covering the ids directly above the anchor and above
/// every existing group.
pub open spec fn grow_post(old_t: FileHeader, new_t: FileHeader, after: u32, new_base: u64) -> bool {
    let om = old_t.msg_offsets@.len() as int;
    let oglen = old_t.groups@.len() as int;
    let prev0 = old_t.grow_prev0(after);
    let placed = old_t.grow_placed(after);
    &&& new_t.wf()
    &&& new_t.base == new_base
    &&& new_t.version == 2
    &&& new_t.endianness == 0
    &&& new_t.max_group_size == (if old_t.max_group_size >= 1 {
        old_t.max_group_size
    } else {
        1
    })
    &&& new_t.msg_offsets@.len() == om + placed
    &&& forall|i: int|
        0 <= i < om ==> #[trigger] new_t.msg_offsets@[i] == rebase_slot(
            old_t.msg_offsets@[i],
            old_t.base,
            new_base,
        )
    &&& forall|i: int| om <= i < om + placed ==> #[trigger] new_t.msg_offsets@[i] == 0
    &&& new_t.groups@.len() >= oglen
    &&& new_t.groups@.subrange(0, oglen) == old_t.groups@
    &&& forall|gi: int|
        oglen <= gi < new_t.groups@.len() ==> prev0 < #[trigger] new_t.groups@[gi].first_id
            && om <= new_t.groups@[gi].offset
    &&& (placed > 0 ==> new_t.groups@.len() > oglen && new_t.groups@[oglen].first_id == prev0 + 1)
    &&& forall|x: u32| prev0 < x <= prev0 + placed ==> #[trigger] new_t.covered(x)
}

impl FileHeader {
    /// Clone and reallocate a message table into a fresh buffer at
    /// `new_base`, doubling message capacity (capped at the format maximum),
    /// rebasing every stored record offset, and appending fresh all-hole
    /// groups of at most `max_group_size` ids each, directly above the
    /// anchor and every existing group. The original table is never touched.
    ///
    /// `new_base` is the address the backing allocator returned for the new
    /// buffer; a null address means allocation failed.
    ///
    /// Returns `None` when growth cannot proceed: capacity is already at the
    /// format maximum, the grown group array would not fit a 32-bit file
    /// size, or the allocator failed.
    #[verifier::rlimit(60)]
    pub fn grow_reallocate(&self, after: u32, new_base: u64) -> (r: Option<FileHeader>)
        ensures
            self.wf() ==> match r {
                Some(nt) => self.grow_possible(new_base) && grow_post(*self, nt, after, new_base),
                None => !self.grow_possible(new_base),
            },
    {
        let om_us = self.msg_offsets.len();
        if om_us as u64 > u32::MAX as u64 {
            return None;
        }
        let om64 = om_us as u64;
        let target64 = if 2 * om64 <= MAX_MSG_COUNT as u64 {
            2 * om64
        } else {
            MAX_MSG_COUNT as u64
        };
        if target64 <= om64 {
            return None;
        }
        let added64 = target64 - om64;
        let mgs: u32 = if self.max_group_size >= 1 {
            self.max_group_size
        } else {
            1
        };
        let oglen = self.groups.len();
        if oglen as u64 > (u32::MAX as u64 - MSG_HEADER_SIZE as u64) / MSG_GROUP_SIZE as u64 {
            proof {
                vstd::arithmetic::mul::lemma_mul_inequality(
                    (u32::MAX - MSG_HEADER_SIZE) as int / MSG_GROUP_SIZE as int + 1,
                    self.groups@.len() as int,
                    MSG_GROUP_SIZE as int,
                );
            }
            return None;
        }
        let added_groups64 = (added64 + mgs as u64 - 1) / mgs as u64;
        let new_gc64 = oglen as u64 + added_groups64;
        let nfs64 = MSG_HEADER_SIZE as u64 + MSG_GROUP_SIZE as u64 * new_gc64;
        if nfs64 > u32::MAX as u64 {
            return None;
        }
        if new_base == 0 {
            return None;
        }
        let ghost old_t = *self;
        let ghost prev0 = self.grow_prev0(after);
        let ghost placed = self.grow_placed(after);
        // Rebase the existing slots.
        let mut offs: Vec<u64> = Vec::new();
        let mut i: usize = 0;
        while i < om_us
            invariant
                i <= om_us,
                om_us == self.msg_offsets@.len(),
                offs@.len() == i,
                forall|j: int|
                    0 <= j < i ==> #[trigger] offs@[j] == rebase_slot(
                        self.msg_offsets@[j],
                        self.base,
                        new_base,
                    ),
            decreases om_us - i,
        {
            let off = self.msg_offsets[i];
            if off == 0 {
                offs.push(0);
            } else {
                offs.push(self.base.wrapping_add(off).wrapping_sub(new_base));
            }
            i = i + 1;
        }
        // Copy the existing groups.
        let mut gs: Vec<MsgGroup> = Vec::new();
        let mut gi: usize = 0;
        while gi < oglen
            invariant
                gi <= oglen,
                oglen == self.groups@.len(),
                gs@ == self.groups@.take(gi as int),
            decreases oglen - gi,
        {
            gs.push(self.groups[gi]);
            proof {
                assert(gs@ =~= self.groups@.take(gi + 1));
            }
            gi = gi + 1;
        }
        proof {
            assert(gs@ =~= self.groups@);
        }
        // Synthesize all-hole groups directly above the placement point.
        let prev0_64: u64 = if oglen == 0 {
            after as u64
        } else {
            let l = self.groups[oglen - 1].last_id;
            if after >= l {
                after as u64
            } else {
                l as u64
            }
        };
        let mut prev: u64 = prev0_64;
        let mut rem: u64 = added64;
        let mut next_offset: u64 = om64;
        while rem > 0 && prev < u32::MAX as u64
            invariant
                old_t == *self,
                oglen == self.groups@.len(),
                om_us == self.msg_offsets@.len(),
                om64 == om_us as u64,
                prev0 == prev0_64 as int,
                prev0_64 <= prev <= u32::MAX as u64,
                placed == old_t.grow_placed(after),
                prev0 == old_t.grow_prev0(after),
                mgs >= 1,
                added64 == old_t.grow_target() - om64,
                // How much remains to place, against the spec total.
                placed == (prev - prev0_64) + (if rem <= u32::MAX as u64 - prev {
                    rem as int
                } else {
                    (u32::MAX as u64 - prev) as int
                }),
                rem <= added64,
                // The offset array so far: rebased slots, then holes.
                offs@.len() == next_offset as int,
                next_offset == om64 + (prev - prev0_64),
                forall|j: int|
                    0 <= j < om64 ==> #[trigger] offs@[j] == rebase_slot(
                        self.msg_offsets@[j],
                        self.base,
                        new_base,
                    ),
                forall|j: int| om64 <= j < offs@.len() ==> #[trigger] offs@[j] == 0,
                // The group array so far: the old groups, then fresh ones in
                // an unbroken id chain starting right above the placement
                // point, their slot runs packed from the old array's end.
                gs@.len() >= oglen,
                gs@.subrange(0, oglen as int) == self.groups@,
                gs@.len() - oglen <= prev - prev0_64,
                forall|g: int|
                    oglen <= g < gs@.len() ==> #[trigger] gs@[g].first_id <= gs@[g].last_id
                        && prev0_64 < gs@[g].first_id && gs@[g].last_id <= prev && om64 <= gs@[g].offset
                        && gs@[g].offset as int == om64 + (gs@[g].first_id - prev0_64 - 1),
                forall|g: int|
                    oglen < g < gs@.len() ==> #[trigger] gs@[g].first_id == gs@[g - 1].last_id + 1,
                gs@.len() > oglen ==> gs@[oglen as int].first_id == prev0_64 + 1 && gs@.last().last_id
                    == prev,
                gs@.len() == oglen ==> prev == prev0_64,
            decreases rem,
        {
            let idcap = u32::MAX as u64 - prev;
            let span = if rem <= mgs as u64 && rem <= idcap {
                rem
            } else if mgs as u64 <= idcap {
                mgs as u64
            } else {
                idcap
            };
            gs.push(
                MsgGroup {
                    offset: next_offset as u32,
                    first_id: (prev + 1) as u32,
                    last_id: (prev + span) as u32,
                },
            );
            let mut z: u64 = 0;
            while z < span
                invariant
                    z <= span,
                    offs@.len() == next_offset + z,
                    forall|j: int|
                        0 <= j < om64 ==> #[trigger] offs@[j] == rebase_slot(
                            self.msg_offsets@[j],
                            self.base,
                            new_base,
                        ),
                    forall|j: int| om64 <= j < offs@.len() ==> #[trigger] offs@[j] == 0,
                    om64 <= next_offset,
                    om_us == self.msg_offsets@.len(),
                    om64 == om_us as u64,
                    old_t == *self,
                decreases span - z,
            {
                offs.push(0);
                z = z + 1;
            }
            prev = prev + span;
            next_offset = next_offset + span;
            rem = rem - span;
        }
        let nt = FileHeader {
            endianness: 0,
            version: 2,
            file_size: nfs64 as u32,
            max_group_size: mgs,
            base: new_base,
            groups: gs,
            msg_offsets: offs,
        };
        proof {
            if old_t.wf() {
                assert(nt.groups@.len() <= oglen + placed);
                assert(oglen as int <= ((u32::MAX - MSG_HEADER_SIZE) as int) / (
                MSG_GROUP_SIZE as int));
                assert(placed <= added64);
                assert(nt.groups@.len() <= u32::MAX);
                lemma_grow_result(old_t, nt, after, new_base, prev0, placed);
            }
        }
        Some(nt)
    }
}

/// The proof that the table [`FileHeader::grow_reallocate`] assembles is well
/// formed and satisfies [`grow_post`].
/// The construction facts [`FileHeader::grow_reallocate`] establishes about
/// the table it assembles, before well-formedness is derived from them.
pub open spec fn grown_shape(
    old_t: FileHeader,
    nt: FileHeader,
    after: u32,
    prev0: int,
    placed: int,
) -> bool {
    &&& old_t.wf()
    &&& prev0 == old_t.grow_prev0(after)
    &&& placed == old_t.grow_placed(after)
    &&& nt.msg_offsets@.len() == old_t.msg_offsets@.len() + placed
    &&& old_t.msg_offsets@.len() + placed <= u32::MAX
    &&& forall|i: int|
        0 <= i < old_t.msg_offsets@.len() ==> #[trigger] nt.msg_offsets@[i] == rebase_slot(
            old_t.msg_offsets@[i],
            old_t.base,
            nt.base,
        )
    &&& forall|i: int|
        old_t.msg_offsets@.len() <= i < nt.msg_offsets@.len() ==> #[trigger] nt.msg_offsets@[i]
            == 0
    &&& nt.groups@.len() >= old_t.groups@.len()
    &&& nt.groups@.subrange(0, old_t.groups@.len() as int) == old_t.groups@
    &&& nt.groups@.len() - old_t.groups@.len() <= placed
    &&& forall|g: int|
        old_t.groups@.len() <= g < nt.groups@.len() ==> #[trigger] nt.groups@[g].first_id
            <= nt.groups@[g].last_id && prev0 < nt.groups@[g].first_id && nt.groups@[g].last_id
            <= prev0 + placed && old_t.msg_offsets@.len() <= nt.groups@[g].offset
            && nt.groups@[g].offset as int == old_t.msg_offsets@.len() + (nt.groups@[g].first_id
            - prev0 - 1)
    &&& forall|g: int|
        old_t.groups@.len() < g < nt.groups@.len() ==> #[trigger] nt.groups@[g].first_id
            == nt.groups@[g - 1].last_id + 1
    &&& (nt.groups@.len() > old_t.groups@.len() ==> nt.groups@[old_t.groups@.len() as int].first_id
        == prev0 + 1 && nt.groups@.last().last_id == prev0 + placed)
    &&& (nt.groups@.len() == old_t.groups@.len() ==> placed == 0)
    &&& nt.groups@.len() <= u32::MAX
}

/// In a grown table the copied prefix of the group array reads back the old
/// groups, whose ids all sit at or below the placement point.
proof fn lemma_grown_prefix(old_t: FileHeader, nt: FileHeader, after: u32, prev0: int, placed: int)
    requires
        grown_shape(old_t, nt, after, prev0, placed),
    ensures
        forall|i: int|
            0 <= i < old_t.groups@.len() ==> #[trigger] nt.groups@[i] == old_t.groups@[i],
        forall|i: int|
            0 <= i < old_t.groups@.len() ==> #[trigger] old_t.groups@[i].last_id <= prev0,
{
    let oglen = old_t.groups@.len() as int;
    assert forall|i: int| 0 <= i < oglen implies #[trigger] nt.groups@[i] == old_t.groups@[i] by {
        assert(nt.groups@.subrange(0, oglen)[i] == nt.groups@[i]);
    }
    assert forall|i: int| 0 <= i < oglen implies #[trigger] old_t.groups@[i].last_id <= prev0 by {
        if i < oglen - 1 {
            lemma_groups_ordered(old_t, i, oglen - 1);
        }
    }
}

/// The grown table's group array is sorted with disjoint id ranges.
proof fn lemma_grown_sorted(old_t: FileHeader, nt: FileHeader, after: u32, prev0: int, placed: int)
    requires
        grown_shape(old_t, nt, after, prev0, placed),
    ensures
        forall|i: int|
            0 <= i < nt.groups@.len() ==> #[trigger] nt.groups@[i].first_id
                <= nt.groups@[i].last_id,
        forall|i: int|
            0 <= i < nt.groups@.len() - 1 ==> #[trigger] nt.groups@[i].last_id < nt.groups@[i
                + 1].first_id,
{
    let oglen = old_t.groups@.len() as int;
    let g = nt.groups@;
    lemma_grown_prefix(old_t, nt, after, prev0, placed);
    assert forall|i: int| 0 <= i < g.len() implies #[trigger] g[i].first_id <= g[i].last_id by {
        if i < oglen {
            assert(g[i] == old_t.groups@[i]);
        }
    }
    assert forall|i: int| 0 <= i < g.len() - 1 implies #[trigger] g[i].last_id < g[i
        + 1].first_id by {
        if i + 1 < oglen {
            assert(g[i] == old_t.groups@[i] && g[i + 1] == old_t.groups@[i + 1]);
        } else if i + 1 == oglen {
            assert(g[i] == old_t.groups@[i]);
            assert(g[i].last_id <= prev0);
            assert(g[i + 1].first_id > prev0);
        } else {
            assert(i >= oglen);
            assert(g[i + 1].first_id == g[i].last_id + 1);
        }
    }
}

/// The grown table's slot runs stay in bounds and never overlap.
proof fn lemma_grown_slots(old_t: FileHeader, nt: FileHeader, after: u32, prev0: int, placed: int)
    requires
        grown_shape(old_t, nt, after, prev0, placed),
    ensures
        forall|i: int|
            0 <= i < nt.groups@.len() ==> #[trigger] nt.groups@[i].offset + (nt.groups@[i].last_id
                - nt.groups@[i].first_id) < nt.msg_offsets@.len(),
        forall|i: int, j: int|
            0 <= i < nt.groups@.len() && 0 <= j < nt.groups@.len() && i != j ==> (
            #[trigger] nt.groups@[i].offset + (nt.groups@[i].last_id - nt.groups@[i].first_id)
                < #[trigger] nt.groups@[j].offset || nt.groups@[j].offset + (nt.groups@[j].last_id
                - nt.groups@[j].first_id) < nt.groups@[i].offset),
{
    let om = old_t.msg_offsets@.len() as int;
    let oglen = old_t.groups@.len() as int;
    let g = nt.groups@;
    lemma_grown_prefix(old_t, nt, after, prev0, placed);
    assert forall|i: int| 0 <= i < g.len() implies #[trigger] g[i].offset + (g[i].last_id
        - g[i].first_id) < nt.msg_offsets@.len() by {
        if i < oglen {
            assert(g[i] == old_t.groups@[i]);
        } else {
            assert(g[i].offset as int == om + (g[i].first_id - prev0 - 1));
            assert(g[i].last_id <= prev0 + placed);
        }
    }
    assert forall|i: int, j: int|
        0 <= i < g.len() && 0 <= j < g.len() && i != j implies (#[trigger] g[i].offset + (
    g[i].last_id - g[i].first_id) < #[trigger] g[j].offset || g[j].offset + (g[j].last_id
        - g[j].first_id) < g[i].offset) by {
        if i < oglen && j < oglen {
            assert(g[i] == old_t.groups@[i] && g[j] == old_t.groups@[j]);
        } else if i < oglen && j >= oglen {
            assert(g[i] == old_t.groups@[i]);
            assert(g[i].offset + (g[i].last_id - g[i].first_id) < om);
        } else if i >= oglen && j < oglen {
            assert(g[j] == old_t.groups@[j]);
            assert(g[j].offset + (g[j].last_id - g[j].first_id) < om);
        } else {
            assert(g[i].offset as int == om + (g[i].first_id - prev0 - 1));
            assert(g[j].offset as int == om + (g[j].first_id - prev0 - 1));
            if i < j {
                lemma_new_chain_ordered(nt, oglen, i, j);
                assert(g[i].last_id < g[j].first_id);
            } else {
                lemma_new_chain_ordered(nt, oglen, j, i);
                assert(g[j].last_id < g[i].first_id);
            }
        }
    }
}

#[verifier::rlimit(100)]
proof fn lemma_grow_result(
    old_t: FileHeader,
    nt: FileHeader,
    after: u32,
    new_base: u64,
    prev0: int,
    placed: int,
)
    requires
        grown_shape(old_t, nt, after, prev0, placed),
        nt.base == new_base,
        nt.version == 2,
        nt.endianness == 0,
        nt.max_group_size >= 1,
        nt.max_group_size == (if old_t.max_group_size >= 1 {
            old_t.max_group_size
        } else {
            1u32
        }),
    ensures
        grow_post(old_t, nt, after, new_base),
{
    let oglen = old_t.groups@.len() as int;
    lemma_grown_sorted(old_t, nt, after, prev0, placed);
    lemma_grown_slots(old_t, nt, after, prev0, placed);
    assert(nt.wf());
    assert forall|x: u32| prev0 < x <= prev0 + placed implies #[trigger] nt.covered(x) by {
        assert(nt.groups@.len() > oglen);
        assert(x <= nt.groups@.last().last_id);
        lemma_chain_cover_upto(nt, oglen, prev0, x, nt.groups@.len() - 1);
    }
    assert(nt.groups@.subrange(0, oglen) == old_t.groups@);
}

/// In the synthesized tail of a grown group array, groups further along the
/// chain cover strictly larger ids.
proof fn lemma_new_chain_ordered(nt: FileHeader, oglen: int, i: int, j: int)
    requires
        0 <= oglen <= i < j < nt.groups@.len(),
        forall|g: int|
            oglen <= g < nt.groups@.len() ==> #[trigger] nt.groups@[g].first_id
                <= nt.groups@[g].last_id,
        forall|g: int|
            oglen < g < nt.groups@.len() ==> #[trigger] nt.groups@[g].first_id == nt.groups@[g
                - 1].last_id + 1,
    ensures
        nt.groups@[i].last_id < nt.groups@[j].first_id,
    decreases j - i,
{
    assert(nt.groups@[i + 1].first_id == nt.groups@[i].last_id + 1);
    assert(nt.groups@[i + 1].first_id <= nt.groups@[i + 1].last_id);
    if i + 1 < j {
        lemma_new_chain_ordered(nt, oglen, i + 1, j);
    }
}

/// Every id in the synthesized chain's span up to group `k`'s last id is
/// covered by one of its groups.
proof fn lemma_chain_cover_upto(nt: FileHeader, oglen: int, prev0: int, x: u32, k: int)
    requires
        0 <= oglen <= k < nt.groups@.len(),
        forall|g: int|
            oglen <= g < nt.groups@.len() ==> #[trigger] nt.groups@[g].first_id
                <= nt.groups@[g].last_id,
        forall|g: int|
            oglen < g < nt.groups@.len() ==> #[trigger] nt.groups@[g].first_id == nt.groups@[g
                - 1].last_id + 1,
        nt.groups@[oglen].first_id == prev0 + 1,
        prev0 < x <= nt.groups@[k].last_id,
    ensures
        nt.covered(x),
    decreases k,
{
    if nt.groups@[k].first_id <= x {
        assert(nt.covers(k, x));
    } else {
        assert(k > oglen);
        lemma_chain_cover_upto(nt, oglen, prev0, x, k - 1);
    }
}

/// Law: a well-formed group array is strictly sorted by id range; every
/// mutating operation's contract preserves well-formedness, so sortedness
/// survives any sequence of insertions, replacements and growths.
pub proof fn lemma_wf_groups_sorted(t: FileHeader)
    requires
        t.wf(),
    ensures
        forall|i: int, j: int|
            0 <= i < j < t.groups@.len() ==> t.groups@[i].last_id < t.groups@[j].first_id,
{
    assert forall|i: int, j: int|
        0 <= i < j < t.groups@.len() implies t.groups@[i].last_id < t.groups@[j].first_id by {
        lemma_groups_ordered(t, i, j);
    }
}

/// Law: on a well-formed table, looking an id up right after an insertion
/// that assigned `newid` to the record at address `data` yields exactly
/// `data`, provided `data` is neither the null address nor the table's own
/// base.
pub proof fn lemma_lookup_after_insert(
    old_t: FileHeader,
    new_t: FileHeader,
    after: u32,
    data: u64,
    newid: u32,
)
    requires
        old_t.wf(),
        insert_after_post(old_t, new_t, after, data, newid),
        data != 0,
        wsub(data, old_t.base) != 0,
    ensures
        new_t.lookup_spec(newid) == Some(data),
{
    lemma_lookup_after_replace(old_t, new_t, newid, data);
}

/// Law: on a well-formed table, looking an id up right after replacing its
/// record with one at address `data` yields exactly `data`; replacing it
/// with the null address opens a hole, and the id then reads as absent.
pub proof fn lemma_lookup_after_replace(old_t: FileHeader, new_t: FileHeader, id: u32, data: u64)
    requires
        old_t.wf(),
        old_t.covered(id),
        new_t.groups@ == old_t.groups@,
        new_t.base == old_t.base,
        new_t.msg_offsets@ == old_t.msg_offsets@.update(
            old_t.slot_of(id),
            if data == 0 {
                0u64
            } else {
                wsub(data, old_t.base)
            },
        ),
    ensures
        new_t.wf(),
        new_t.covered(id),
        new_t.slot_of(id) == old_t.slot_of(id),
        data == 0 ==> new_t.lookup_spec(id) == None::<u64>,
        data != 0 && wsub(data, old_t.base) != 0 ==> new_t.lookup_spec(id) == Some(data),
{
    let i = old_t.group_of(id);
    assert(old_t.covers(i, id));
    assert(0 <= old_t.slot_of(id) < old_t.msg_offsets@.len());
    assert(new_t.wf());
    assert(new_t.covers(i, id));
    lemma_group_unique(new_t, id, i, new_t.group_of(id));
    assert(new_t.slot_of(id) == old_t.slot_of(id));
    assert(new_t.stored(id) == new_t.msg_offsets@[old_t.slot_of(id)]);
    if data != 0 && wsub(data, old_t.base) != 0 {
        assert(wadd(new_t.base, wsub(data, old_t.base)) == data);
    }
}

/// Law: growing a well-formed table preserves every covered id with its
/// slot position, hole or not, and with its record's resolved address
/// unchanged in value.
pub proof fn lemma_grow_preserves(old_t: FileHeader, new_t: FileHeader, after: u32, new_base: u64)
    requires
        old_t.wf(),
        grow_post(old_t, new_t, after, new_base),
    ensures
        forall|id: u32|
            #[trigger] old_t.covered(id) ==> new_t.covered(id) && new_t.slot_of(id)
                == old_t.slot_of(id) && new_t.stored(id) == rebase_slot(
                old_t.stored(id),
                old_t.base,
                new_base,
            ) && (old_t.stored(id) != 0 ==> wadd(new_base, new_t.stored(id)) == wadd(
                old_t.base,
                old_t.stored(id),
            )),
{
    let oglen = old_t.groups@.len() as int;
    assert forall|i: int| 0 <= i < oglen implies #[trigger] new_t.groups@[i]
        == old_t.groups@[i] by {
        assert(new_t.groups@.subrange(0, oglen)[i] == new_t.groups@[i]);
    }
    assert forall|id: u32| #[trigger] old_t.covered(id) implies new_t.covered(id) && new_t.slot_of(
        id,
    ) == old_t.slot_of(id) && new_t.stored(id) == rebase_slot(
        old_t.stored(id),
        old_t.base,
        new_base,
    ) && (old_t.stored(id) != 0 ==> wadd(new_base, new_t.stored(id)) == wadd(
        old_t.base,
        old_t.stored(id),
    )) by {
        let i = old_t.group_of(id);
        assert(old_t.covers(i, id));
        lemma_group_unique(old_t, id, i, old_t.group_of(id));
        assert(new_t.covers(i, id));
        lemma_group_unique(new_t, id, i, new_t.group_of(id));
        assert(new_t.slot_of(id) == old_t.slot_of(id));
        assert(0 <= old_t.slot_of(id) < old_t.msg_offsets@.len());
        assert(new_t.stored(id) == rebase_slot(old_t.stored(id), old_t.base, new_base));
    }
}

/// Law: growth that placed any capacity leaves an open slot directly above
/// the anchor, so an insertion retried after it finds a hole.
pub proof fn lemma_grow_yields_open_slot(
    old_t: FileHeader,
    new_t: FileHeader,
    after: u32,
    new_base: u64,
)
    requires
        old_t.wf(),
        grow_post(old_t, new_t, after, new_base),
        old_t.grow_placed(after) > 0,
    ensures
        after < u32::MAX,
        new_t.is_open_slot((old_t.grow_prev0(after) + 1) as u32),
        old_t.grow_prev0(after) + 1 > after,
{
    let om = old_t.msg_offsets@.len() as int;
    let oglen = old_t.groups@.len() as int;
    let prev0 = old_t.grow_prev0(after);
    let x = (prev0 + 1) as u32;
    assert(prev0 < u32::MAX);
    assert(new_t.covered(x));
    assert forall|i: int| 0 <= i < oglen implies #[trigger] new_t.groups@[i]
        == old_t.groups@[i] by {
        assert(new_t.groups@.subrange(0, oglen)[i] == new_t.groups@[i]);
    }
    let i = new_t.group_of(x);
    assert(new_t.covers(i, x));
    if i < oglen {
        assert(new_t.groups@[i] == old_t.groups@[i]);
        if i < oglen - 1 {
            lemma_groups_ordered(old_t, i, oglen - 1);
        }
        assert(old_t.groups@[i].last_id <= prev0);
        assert(false);
    }
    assert(om <= new_t.groups@[i].offset);
    assert(om <= new_t.slot_of(x));
    assert(new_t.slot_of(x) < new_t.msg_offsets@.len());
    assert(new_t.stored(x) == 0);
}

impl Default for FileHeader {
    /// A blank message table at the null base address with no groups and no
    /// slots.
    fn default() -> (r: Self)
        ensures
            r.endianness == 0 && r.version == 2 && r.file_size == 0 && r.max_group_size == 0xff,
            r.base == 0,
            r.groups@.len() == 0,
            r.msg_offsets@.len() == 0,
    {
        FileHeader {
            endianness: 0,
            version: 2,
            file_size: 0,
            max_group_size: 0xFF,
            base: 0,
            groups: Vec::new(),
            msg_offsets: Vec::new(),
        }
    }
}

} // verus!
