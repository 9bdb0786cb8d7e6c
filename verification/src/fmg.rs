//! Message table manipulation utilities.
//!
//! - Retrieve with [`MsgRepository::get_msg`]
//! - Insert with [`MsgRepository::insert_msg`]
//! - Replace with [`MsgRepository::replace_msg`]
//!
//! When a table runs out of holes for an insertion, the repository grows it
//! once by reallocation and retries; that signal is never surfaced to the
//! caller.

pub mod file;

use vstd::prelude::*;

use file::FileHeader;

verus! {

/// The fixed id every synthesized per-category anchor lies above, keeping
/// fresh message ids clear of authored content ids.
pub const NEW_MSG_ID_BASE: u32 = 999_999_999;

/// The repository of message tables: one optional table per (version,
/// category) pair, with a fixed per-version category capacity.
///
/// The process-wide lock and the resolution of the live repository instance
/// are capabilities of the surrounding program; the repository itself is
/// plain data, so its operations are testable against synthetic tables.
pub struct MsgRepository {
    /// The tables, addressed by version then category.
    pub files: Vec<Vec<Option<FileHeader>>>,
    /// The number of category slots each version holds.
    pub file_capacity: u32,
}

impl MsgRepository {
    /// Whether a table is present for the pair.
    pub open spec fn has_file(self, version: u32, category: u32) -> bool {
        &&& (version as int) < self.files@.len()
        &&& (category as int) < self.files@[version as int]@.len()
        &&& self.files@[version as int]@[category as int] is Some
    }

    /// The table held for the pair.
    pub open spec fn file_at(self, version: u32, category: u32) -> FileHeader {
        self.files@[version as int]@[category as int]->0
    }

    /// What [`MsgRepository::new_after`] returns: the synthesized anchor id
    /// for a category, partitioning the id space above the fixed base
    /// proportionally among the categories.
    pub open spec fn new_after_spec(self, category: u32) -> Option<u32> {
        if category >= self.file_capacity {
            None
        } else {
            Some(
                (NEW_MSG_ID_BASE + ((u32::MAX - NEW_MSG_ID_BASE) as int / self.file_capacity as int)
                    * category) as u32,
            )
        }
    }

    /// The synthesized anchor id new messages of a category are inserted
    /// after, when the caller supplies none: each category gets a disjoint
    /// high id range, so fresh ids never collide with authored content ids.
    pub fn new_after(&self, category: u32) -> (r: Option<u32>)
        ensures
            r == self.new_after_spec(category),
    {
        if category >= self.file_capacity {
            return None;
        }
        let step = (u32::MAX - NEW_MSG_ID_BASE) / self.file_capacity;
        proof {
            let diff = (u32::MAX - NEW_MSG_ID_BASE) as int;
            let cap = self.file_capacity as int;
            let st = diff / cap;
            vstd::arithmetic::div_mod::lemma_fundamental_div_mod(diff, cap);
            vstd::arithmetic::div_mod::lemma_mod_bound(diff, cap);
            assert(cap * st <= diff);
            vstd::arithmetic::div_mod::lemma_div_pos_is_pos(diff, cap);
            assert(st * (category as int) <= diff) by (nonlinear_arith)
                requires
                    st >= 0,
                    (category as int) < cap,
                    cap * st <= diff,
            ;
            assert(step as int * category as int <= diff);
        }
        let scaled64 = step as u64 * category as u64;
        Some(NEW_MSG_ID_BASE + scaled64 as u32)
    }

    /// The table held for a (version, category) pair, if any.
    pub fn file_by_category(&self, version: u32, category: u32) -> (r: Option<&FileHeader>)
        ensures
            match r {
                Some(f) => self.has_file(version, category) && *f == self.file_at(
                    version,
                    category,
                ),
                None => !self.has_file(version, category),
            },
    {
        if version as usize >= self.files.len() {
            return None;
        }
        let row = &self.files[version as usize];
        if category as usize >= row.len() {
            return None;
        }
        match &row[category as usize] {
            None => None,
            Some(f) => Some(f),
        }
    }

    /// Retrieves the message with `id` from the table of a (version,
    /// category) pair, returning a pointer to its text.
    pub fn get_msg(&self, version: u32, category: u32, id: u32) -> (r: Option<u64>)
        ensures
            !self.has_file(version, category) ==> r == None::<u64>,
            self.has_file(version, category) && self.file_at(version, category).wf() ==> r
                == self.file_at(version, category).lookup_spec(id),
    {
        if version as usize >= self.files.len() {
            return None;
        }
        let row = &self.files[version as usize];
        if category as usize >= row.len() {
            return None;
        }
        match &row[category as usize] {
            None => None,
            Some(f) => match f.msg_index_by_id(id) {
                None => None,
                Some(idx) => f.msg_data_by_index(idx),
            },
        }
    }

    /// Lists the categories of a version that hold a table, in ascending
    /// order.
    pub fn get_all_categories(&self, version: u32) -> (r: Option<Vec<u32>>)
        ensures
            match r {
                Some(cats) => (version as int) < self.files@.len() && (forall|k: int|
                    0 <= k < cats@.len() ==> self.has_file(version, #[trigger] cats@[k])) && (
                forall|c: u32| self.has_file(version, c) ==> cats@.contains(c)) && (forall|
                    k1: int,
                    k2: int,
                |
                    0 <= k1 < k2 < cats@.len() ==> cats@[k1] < cats@[k2]),
                None => (version as int) >= self.files@.len(),
            },
    {
        if version as usize >= self.files.len() {
            return None;
        }
        let row = &self.files[version as usize];
        let mut cats: Vec<u32> = Vec::new();
        let n = row.len();
        let mut c: usize = 0;
        while c < n
            invariant
                c <= n,
                n == row@.len(),
                row@ == self.files@[version as int]@,
                (version as int) < self.files@.len(),
                forall|k: int|
                    0 <= k < cats@.len() ==> (#[trigger] cats@[k] as int) < c && self.has_file(
                        version,
                        cats@[k],
                    ),
                forall|x: u32| (x as int) < c && self.has_file(version, x) ==> cats@.contains(x),
                forall|k1: int, k2: int| 0 <= k1 < k2 < cats@.len() ==> cats@[k1] < cats@[k2],
            decreases n - c,
        {
            if c as u64 > u32::MAX as u64 {
                proof {
                    assert forall|x: u32|
                        (x as int) < n && self.has_file(version, x) implies cats@.contains(x) by {
                        assert((x as int) < c);
                    }
                }
                return Some(cats);
            }
            let ghost old_cats = cats@;
            if row[c].is_some() {
                cats.push(c as u32);
                proof {
                    assert forall|x: u32|
                        (x as int) < c + 1 && self.has_file(version, x) implies cats@.contains(
                        x,
                    ) by {
                        if (x as int) < c {
                            assert(old_cats.contains(x));
                            let k = choose|k: int| 0 <= k < old_cats.len() && old_cats[k] == x;
                            assert(cats@[k] == x);
                        } else {
                            assert(cats@[cats@.len() - 1] == x);
                        }
                    }
                }
            } else {
                proof {
                    assert forall|x: u32|
                        (x as int) < c + 1 && self.has_file(version, x) implies cats@.contains(
                        x,
                    ) by {
                        assert((x as int) != c);
                    }
                }
            }
            c = c + 1;
        }
        Some(cats)
    }

    /// Collects every live message of a table as `(id, pointer)` pairs in
    /// ascending id order.
    #[verifier::rlimit(100)]
    pub fn get_all_msgs(&self, version: u32, category: u32) -> (r: Option<Vec<(u32, u64)>>)
        ensures
            match r {
                Some(msgs) => self.has_file(version, category) && (self.file_at(
                    version,
                    category,
                ).wf() ==> {
                    let f = self.file_at(version, category);
                    &&& forall|k: int|
                        0 <= k < msgs@.len() ==> f.lookup_spec(#[trigger] msgs@[k].0) == Some(
                            msgs@[k].1,
                        )
                    &&& forall|id: u32|
                        (#[trigger] f.lookup_spec(id)) is Some ==> msgs@.contains(
                            (id, f.lookup_spec(id)->0),
                        )
                    &&& forall|k1: int, k2: int|
                        0 <= k1 < k2 < msgs@.len() ==> msgs@[k1].0 < msgs@[k2].0
                }),
                None => !self.has_file(version, category),
            },
    {
        if version as usize >= self.files.len() {
            return None;
        }
        let row = &self.files[version as usize];
        if category as usize >= row.len() {
            return None;
        }
        let f = match &row[category as usize] {
            None => {
                return None;
            },
            Some(f) => f,
        };
        let mut msgs: Vec<(u32, u64)> = Vec::new();
        let n = f.groups.len();
        let mut gi: usize = 0;
        while gi < n
            invariant
                gi <= n,
                n == f.groups@.len(),
                *f == self.file_at(version, category),
                self.has_file(version, category),
                f.wf() ==> {
                    &&& forall|k: int|
                        0 <= k < msgs@.len() ==> f.lookup_spec(#[trigger] msgs@[k].0) == Some(
                            msgs@[k].1,
                        )
                    &&& forall|id: u32, i: int|
                        0 <= i < gi && #[trigger] f.covers(i, id) && (#[trigger] f.lookup_spec(id))
                            is Some ==> msgs@.contains((id, f.lookup_spec(id)->0))
                    &&& forall|k1: int, k2: int|
                        0 <= k1 < k2 < msgs@.len() ==> msgs@[k1].0 < msgs@[k2].0
                    &&& (gi < n ==> forall|k: int|
                        0 <= k < msgs@.len() ==> (#[trigger] msgs@[k].0 as int) < f.groups@[gi as int].first_id)
                },
            decreases n - gi,
        {
            let g = f.groups[gi];
            let glast = g.last_id as u64;
            let gfirst = g.first_id as u64;
            let mlen = f.msg_offsets.len();
            if glast < gfirst || g.offset as u64 + (glast - gfirst) >= mlen as u64 {
                proof {
                    if f.wf() {
                        assert(false);
                    }
                }
                gi = gi + 1;
                continue ;
            }
            let mut id64: u64 = gfirst;
            while id64 <= glast
                invariant
                    gi < n,
                    n == f.groups@.len(),
                    *f == self.file_at(version, category),
                    self.has_file(version, category),
                    g == f.groups@[gi as int],
                    glast == g.last_id as u64,
                    gfirst == g.first_id as u64,
                    gfirst <= id64 <= glast + 1,
                    gfirst <= glast,
                    mlen == f.msg_offsets@.len(),
                    g.offset as u64 + (glast - gfirst) < mlen as u64,
                    f.wf() ==> {
                        &&& forall|k: int|
                            0 <= k < msgs@.len() ==> f.lookup_spec(#[trigger] msgs@[k].0) == Some(
                                msgs@[k].1,
                            )
                        &&& forall|id: u32, i: int|
                            0 <= i < gi && #[trigger] f.covers(i, id) && (#[trigger] f.lookup_spec(
                                id,
                            )) is Some ==> msgs@.contains((id, f.lookup_spec(id)->0))
                        &&& forall|id: u32|
                            f.covers(gi as int, id) && (id as u64) < id64 && (
                            #[trigger] f.lookup_spec(id)) is Some ==> msgs@.contains(
                                (id, f.lookup_spec(id)->0),
                            )
                        &&& forall|k1: int, k2: int|
                            0 <= k1 < k2 < msgs@.len() ==> msgs@[k1].0 < msgs@[k2].0
                        &&& forall|k: int|
                            0 <= k < msgs@.len() ==> (#[trigger] msgs@[k].0 as u64) < id64
                    },
                decreases glast + 1 - id64,
            {
                let slot64 = g.offset as u64 + (id64 - gfirst);
                let off = f.msg_offsets[slot64 as usize];
                let id = id64 as u32;
                let ghost pre_msgs = msgs@;
                proof {
                    if f.wf() {
                        assert(f.covers(gi as int, id));
                        file::lemma_group_unique(*f, id, gi as int, f.group_of(id));
                        assert(f.slot_of(id) == slot64 as int);
                    }
                }
                if off != 0 {
                    let p = f.base.wrapping_add(off);
                    if p != 0 {
                        proof {
                            if f.wf() {
                                assert(f.lookup_spec(id) == Some(p));
                            }
                        }
                        msgs.push((id, p));
                        proof {
                            assert(msgs@[msgs@.len() - 1] == (id, p));
                            assert(msgs@.contains((id, p)));
                        }
                    }
                }
                proof {
                    assert forall|t: (u32, u64)| pre_msgs.contains(t) implies msgs@.contains(t) by {
                        let k = choose|k: int| 0 <= k < pre_msgs.len() && pre_msgs[k] == t;
                        assert(msgs@[k] == t);
                    }
                    if f.wf() {
                        assert forall|id2: u32|
                            f.covers(gi as int, id2) && (id2 as u64) < id64 + 1 && (
                            #[trigger] f.lookup_spec(id2)) is Some implies msgs@.contains(
                            (id2, f.lookup_spec(id2)->0),
                        ) by {
                            if (id2 as u64) < id64 {
                                assert(pre_msgs.contains((id2, f.lookup_spec(id2)->0)));
                            } else {
                                assert(id2 == id);
                            }
                        }
                        assert forall|id2: u32, i: int|
                            0 <= i < gi && #[trigger] f.covers(i, id2) && (#[trigger] f.lookup_spec(
                                id2,
                            )) is Some implies msgs@.contains((id2, f.lookup_spec(id2)->0)) by {
                            assert(pre_msgs.contains((id2, f.lookup_spec(id2)->0)));
                        }
                        assert forall|k: int|
                            0 <= k < msgs@.len() implies f.lookup_spec(#[trigger] msgs@[k].0)
                            == Some(msgs@[k].1) by {
                            if k < pre_msgs.len() {
                                assert(msgs@[k] == pre_msgs[k]);
                            }
                        }
                    }
                }
                id64 = id64 + 1;
            }
            proof {
                if f.wf() {
                    assert forall|id: u32, i: int|
                        0 <= i < gi + 1 && #[trigger] f.covers(i, id) && (#[trigger] f.lookup_spec(
                            id,
                        )) is Some implies msgs@.contains((id, f.lookup_spec(id)->0)) by {
                        if i == gi as int {
                            assert((id as u64) < id64);
                        }
                    }
                    if gi + 1 < n {
                        assert(f.groups@[gi as int].last_id < f.groups@[gi + 1].first_id);
                        assert forall|k: int|
                            0 <= k < msgs@.len() implies (#[trigger] msgs@[k].0 as int) < f.groups@[gi
                            + 1].first_id by {
                            assert((msgs@[k].0 as u64) < id64);
                        }
                    }
                }
            }
            gi = gi + 1;
        }
        proof {
            if f.wf() {
                assert forall|id: u32| (#[trigger] f.lookup_spec(id)) is Some implies msgs@.contains(
                    (id, f.lookup_spec(id)->0),
                ) by {
                    assert(f.covered(id));
                    let i = f.group_of(id);
                    assert(f.covers(i, id));
                }
            }
        }
        Some(msgs)
    }
}

/// What every mutating repository operation guarantees about the tables it
/// did not address.
pub open spec fn msg_others_unchanged(
    old_r: MsgRepository,
    new_r: MsgRepository,
    version: u32,
    category: u32,
) -> bool {
    &&& new_r.file_capacity == old_r.file_capacity
    &&& new_r.files@.len() == old_r.files@.len()
    &&& forall|v: int|
        0 <= v < old_r.files@.len() && v != version as int ==> #[trigger] new_r.files@[v]
            == old_r.files@[v]
    &&& ((version as int) < old_r.files@.len() ==> new_r.files@[version as int]@.len()
        == old_r.files@[version as int]@.len() && (forall|c: int|
        0 <= c < old_r.files@[version as int]@.len() && c != category as int
            ==> #[trigger] new_r.files@[version as int]@[c] == old_r.files@[version as int]@[c]))
}

/// What [`MsgRepository::replace_msg`] does: resolve the table, locate the
/// id's slot, and swap it for the record at `data` (null deletes), returning
/// the previous record's pointer.
pub open spec fn msg_replace_post(
    old_r: MsgRepository,
    new_r: MsgRepository,
    version: u32,
    category: u32,
    id: u32,
    data: u64,
    r: Option<u64>,
) -> bool {
    &&& msg_others_unchanged(old_r, new_r, version, category)
    &&& (!old_r.has_file(version, category) ==> r == None::<u64> && (new_r.has_file(
        version,
        category,
    ) == old_r.has_file(version, category)))
    &&& (old_r.has_file(version, category) ==> new_r.has_file(version, category) && {
        let f0 = old_r.file_at(version, category);
        let f1 = new_r.file_at(version, category);
        f0.wf() ==> if !f0.covered(id) {
            r == None::<u64> && f1 == f0
        } else {
            &&& f1.groups@ == f0.groups@
            &&& f1.base == f0.base
            &&& f1.msg_offsets@ == f0.msg_offsets@.update(
                f0.slot_of(id),
                if data == 0 {
                    0u64
                } else {
                    file::wsub(data, f0.base)
                },
            )
            &&& r == f0.data_by_index_spec(f0.slot_of(id))
        }
    })
}

/// The table after a grow-and-retry message insertion: some growth output
/// `g` of the old table stands between the two states, and the final result
/// is the retried insertion's.
pub open spec fn msg_retry_insert_post(
    old_f: FileHeader,
    new_f: FileHeader,
    after: u32,
    data: u64,
    new_base: u64,
    r: Option<u32>,
) -> bool {
    exists|g: FileHeader|
        {
            &&& #[trigger] file::grow_post(old_f, g, after, new_base)
            &&& match r {
                Some(newid) => file::insert_after_post(g, new_f, after, data, newid),
                None => file::msg_table_unchanged(g, new_f) && (forall|x: u32|
                    x > after ==> !g.is_open_slot(x)),
            }
        }
}

/// What [`MsgRepository::insert_msg`] does: resolve the anchor (the caller's
/// or the category's synthesized one) and the table, insert at the first
/// hole above the anchor, and on exhaustion grow the table once by
/// reallocation into `new_base` and retry.
pub open spec fn msg_insert_post(
    old_r: MsgRepository,
    new_r: MsgRepository,
    version: u32,
    category: u32,
    anchor: Option<u32>,
    data: u64,
    new_base: u64,
    r: Option<u32>,
) -> bool {
    let resolved = if anchor is Some {
        anchor
    } else {
        old_r.new_after_spec(category)
    };
    &&& msg_others_unchanged(old_r, new_r, version, category)
    &&& (resolved is None ==> r == None::<u32>)
    &&& (resolved is Some && !old_r.has_file(version, category) ==> r == None::<u32>)
    &&& (resolved is Some && old_r.has_file(version, category) ==> new_r.has_file(
        version,
        category,
    ) && {
        let after = resolved->0;
        let f0 = old_r.file_at(version, category);
        let f1 = new_r.file_at(version, category);
        f0.wf() ==> if exists|x: u32| x > after && f0.is_open_slot(x) {
            r is Some && file::insert_after_post(f0, f1, after, data, r->0)
        } else if !f0.grow_possible(new_base) {
            r == None::<u32> && file::msg_table_unchanged(f0, f1)
        } else {
            msg_retry_insert_post(f0, f1, after, data, new_base, r)
        }
    })
}

impl MsgRepository {
    /// Searches a table's message by its id and replaces its record with the
    /// one at address `data` (null deletes the message, opening a hole),
    /// returning a pointer to the previous record.
    pub fn replace_msg(&mut self, version: u32, category: u32, id: u32, data: u64) -> (r: Option<
        u64,
    >)
        ensures
            msg_replace_post(*old(self), *final(self), version, category, id, data, r),
    {
        if version as usize >= self.files.len() {
            return None;
        }
        let mut row = self.files.remove(version as usize);
        if category as usize >= row.len() {
            self.files.insert(version as usize, row);
            proof {
                assert(self.files@ =~= old(self).files@);
            }
            return None;
        }
        let fopt = row.remove(category as usize);
        match fopt {
            None => {
                row.insert(category as usize, None);
                self.files.insert(version as usize, row);
                proof {
                    assert(row@ =~= old(self).files@[version as int]@);
                }
                None
            },
            Some(mut f) => {
                let ghost f0 = f;
                let r = match f.msg_index_by_id(id) {
                    None => None,
                    Some(idx) => {
                        let out = f.replace_msg_by_index(idx, data);
                        proof {
                            if f0.wf() {
                                assert(0 <= f0.slot_of(id) < f0.msg_offsets@.len());
                            }
                        }
                        out
                    },
                };
                row.insert(category as usize, Some(f));
                self.files.insert(version as usize, row);
                r
            },
        }
    }

    /// Tries to insert a new message with its text record at address `data`
    /// into the table of a (version, category) pair and returns the id
    /// assigned to it.
    ///
    /// The new id is the first free id above `after`, or above the
    /// category's synthesized anchor when the caller supplies none. When no
    /// free id remains, the table is grown once by reallocation into a
    /// buffer at `new_base` (null meaning the allocator failed) and the
    /// insertion is retried.
    #[verifier::rlimit(100)]
    pub fn insert_msg(
        &mut self,
        version: u32,
        category: u32,
        after: Option<u32>,
        data: u64,
        new_base: u64,
    ) -> (r: Option<u32>)
        ensures
            msg_insert_post(
                *old(self),
                *final(self),
                version,
                category,
                after,
                data,
                new_base,
                r,
            ),
    {
        let anchor = match after {
            Some(a) => a,
            None => {
                match self.new_after(category) {
                    Some(a) => a,
                    None => {
                        return None;
                    },
                }
            },
        };
        if version as usize >= self.files.len() {
            return None;
        }
        let mut row = self.files.remove(version as usize);
        if category as usize >= row.len() {
            self.files.insert(version as usize, row);
            proof {
                assert(self.files@ =~= old(self).files@);
            }
            return None;
        }
        let fopt = row.remove(category as usize);
        match fopt {
            None => {
                row.insert(category as usize, None);
                self.files.insert(version as usize, row);
                proof {
                    assert(row@ =~= old(self).files@[version as int]@);
                }
                None
            },
            Some(mut f) => {
                let ghost f0 = f;
                let first = f.try_insert_new_after(anchor, data);
                let ghost f_mid = f;
                let out = match first {
                    Some(newid) => Some(newid),
                    None => {
                        proof {
                            if f0.wf() {
                                assert(file::msg_table_unchanged(f0, f_mid));
                                assert(f_mid.groups@ == f0.groups@);
                                assert(f_mid.msg_offsets@ == f0.msg_offsets@);
                                assert(f_mid.base == f0.base);
                                assert(f_mid.wf());
                                assert(f_mid.grow_possible(new_base) == f0.grow_possible(new_base));
                            }
                        }
                        match f.grow_reallocate(anchor, new_base) {
                            None => None,
                            Some(nf) => {
                                f = nf;
                                let ghost grown = f;
                                let r2 = f.try_insert_new_after(anchor, data);
                                proof {
                                    if f0.wf() {
                                        assert(file::grow_post(f_mid, grown, anchor, new_base));
                                        assert(f_mid.grow_prev0(anchor) == f0.grow_prev0(anchor));
                                        assert(f_mid.grow_placed(anchor) == f0.grow_placed(anchor));
                                        assert(f_mid.grow_target() == f0.grow_target());
                                        assert(file::grow_post(f0, grown, anchor, new_base));
                                    }
                                }
                                r2
                            },
                        }
                    },
                };
                row.insert(category as usize, Some(f));
                self.files.insert(version as usize, row);
                out
            },
        }
    }
}

} // verus!