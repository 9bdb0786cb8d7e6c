//! Raw param table manipulation.
//!
//! A table is one contiguous buffer: a header, a lookup table (LUT) sorted by
//! row id, and a positionally indexed array of row descriptors. All record
//! references are byte offsets relative to the table's own base address, so
//! the whole table can move during reallocation without patching record
//! pointers. Row insertion and removal use a free list embedded in the LUT,
//! with amortized O(1) performance.

use vstd::prelude::*;
use vstd::pervasive::VecAdditionalExecFns;

verus! {

/// Byte size of the table header.
pub const HEADER_SIZE: u64 = 64;

/// Byte size of a wide row descriptor.
pub const DESCRIPTOR_SIZE: u64 = 24;

/// Byte size of a narrow row descriptor.
pub const NARROW_DESCRIPTOR_SIZE: u64 = 12;

/// The most rows a table can hold: the widest descriptor array together with
/// the header must stay addressable by a signed 32-bit byte size.
pub const MAX_ROW_COUNT: usize = (0x7fff_ffff - 64) / 24;

/// The `index` value of the sentinel LUT entry when the free list is empty,
/// and the encoded "next" position that terminates the free list.
pub const NO_SLOT: i32 = 0x7fff_ffff;

/// One entry of the lookup table: the sole authoritative index from a row id
/// to a descriptor-array position.
///
/// An occupied entry stores its own position in `index`. A free entry stores
/// the bitwise complement of the next free position (always negative), which
/// threads the free list through the sorted array. The sentinel entry with
/// `id == u32::MAX` stores the position of the first free slot, or [`NO_SLOT`]
/// when the free list is empty.
#[derive(Clone, Copy, PartialEq, Eq, Structural, Debug)]
pub struct LutEntry {
    pub id: u32,
    pub index: i32,
}

/// One row descriptor: the row's id and the byte offset of its field data
/// relative to the table's base address.
#[derive(Clone, Copy, PartialEq, Eq, Structural, Debug)]
pub struct RowDescriptor {
    pub id: u32,
    pub data_offset: u64,
}

/// Possible param table manipulation errors.
#[derive(Clone, Copy, PartialEq, Eq, Structural, Debug)]
pub enum Error {
    /// The file format is improper for its encoding, or an internal
    /// consistency check failed (corrupt free-list linkage, mismatched
    /// descriptor, offset resolving to a null pointer, undecodable name).
    Malformed,
    /// Row id exceeds `i32::MAX` interpreted as signed, i.e. is negative.
    NegativeId,
    /// Entry is not present.
    NotInTable,
    /// The operation is structurally impossible in the table's current mode or
    /// capacity; it can succeed after [`FileHeader::clone_reallocate`].
    NeedsRealloc,
    /// Could not reallocate the table: the allocator returned null.
    FailedRealloc,
}

/// The in-memory form of a param table: the header fields the engine reads,
/// the base address the table lives at, and its two index arrays.
pub struct FileHeader {
    /// Format version carried in the header.
    pub version: u16,
    /// Endianness flag; any value but `0xFF` means little endian.
    pub endianness: u8,
    /// Layout discriminant: the low seven bits select the descriptor layout,
    /// the high bit selects the "new" layout format version.
    pub layout_flags: u8,
    /// Format flags: bit 0 selects UTF-16 strings, bit 1 64-bit addressing.
    pub format_flags: u8,
    /// Row count carried in the header, saturated to 16 bits.
    pub row_count: u16,
    /// Byte offset of the row data region relative to `base`.
    pub data_offset: u64,
    /// Raw bytes of the table name, as stored in the file.
    pub name_bytes: Vec<u8>,
    /// The address the table lives at; record pointers resolve as
    /// `base + offset` in wrapping arithmetic.
    pub base: u64,
    /// The lookup table, sorted by id, ending in the free-list sentinel once
    /// the table has been through one reallocation.
    pub lut: Vec<LutEntry>,
    /// The positionally indexed descriptor array.
    pub descriptors: Vec<RowDescriptor>,
}

/// The bitwise complement of a free-list link, as an unbounded integer.
pub open spec fn link_not(x: int) -> int {
    -1 - x
}

/// Whether the LUT ends in the sentinel entry that hosts the free list.
pub open spec fn has_sentinel(lut: Seq<LutEntry>) -> bool {
    lut.len() > 0 && lut.last().id == u32::MAX
}

/// The free-list chain read from `lut` starting at position `head`, following
/// complement-encoded links, cut off after `fuel` steps. Positions outside
/// the non-sentinel prefix end the chain.
pub open spec fn free_chain(lut: Seq<LutEntry>, head: int, fuel: nat) -> Seq<int>
    decreases fuel,
{
    if fuel == 0 || head < 0 || head >= lut.len() - 1 {
        Seq::empty()
    } else {
        seq![head] + free_chain(lut, link_not(lut[head].index as int), (fuel - 1) as nat)
    }
}

/// The free-list chain of a whole LUT: links followed from the sentinel, with
/// enough fuel that a duplicate-free chain is never cut short.
pub open spec fn chain_of(lut: Seq<LutEntry>) -> Seq<int> {
    free_chain(lut, lut.last().index as int, lut.len() as nat)
}

/// Well-formedness of a capacity-bearing LUT: sentinel present, ids strictly
/// sorted, occupied entries indexing their own position, free entries keyed
/// by ids a caller can get back as a non-negative `i32`, and the free list
/// visiting exactly the free slots, each once.
pub open spec fn lut_wf(lut: Seq<LutEntry>) -> bool {
    let n = lut.len() - 1;
    &&& has_sentinel(lut)
    &&& lut.last().index >= 0
    &&& n <= MAX_ROW_COUNT
    &&& forall|i: int, j: int| 0 <= i < j < lut.len() ==> lut[i].id < lut[j].id
    &&& forall|k: int| 0 <= k < n && #[trigger] lut[k].index >= 0 ==> lut[k].index == k
    &&& forall|k: int| 0 <= k < n && #[trigger] lut[k].index < 0 ==> lut[k].id <= i32::MAX as u32
    &&& chain_of(lut).no_duplicates()
    &&& forall|k: int| 0 <= k < n ==> (#[trigger] lut[k].index < 0 <==> chain_of(lut).contains(k))
}

impl FileHeader {
    /// The number of row slots the table indexes (the LUT without its
    /// sentinel).
    pub open spec fn slot_count(self) -> int {
        self.lut@.len() - 1
    }

    /// Whether slot `k` currently holds a live row.
    pub open spec fn is_live(self, k: int) -> bool {
        0 <= k < self.slot_count() && self.lut@[k].index >= 0
    }

    /// Whether some live slot carries `id`.
    pub open spec fn has_live_id(self, id: u32) -> bool {
        exists|k: int| self.is_live(k) && self.lut@[k].id == id
    }

    /// The position of the live slot carrying `id`; meaningful when
    /// `has_live_id(id)` holds and the LUT is well formed.
    pub open spec fn live_pos(self, id: u32) -> int {
        choose|k: int| self.is_live(k) && self.lut@[k].id == id
    }

    /// The table as a mapping from live row ids to the byte offsets of their
    /// field data relative to `base`.
    pub open spec fn live_map(self) -> Map<u32, u64> {
        Map::new(
            |id: u32| self.has_live_id(id),
            |id: u32| self.descriptors@[self.live_pos(id)].data_offset,
        )
    }

    /// Well-formedness of a capacity-bearing table: a well-formed LUT whose
    /// non-sentinel entries each have a descriptor of the same id at the same
    /// position.
    pub open spec fn wf(self) -> bool {
        &&& lut_wf(self.lut@)
        &&& self.descriptors@.len() == self.slot_count()
        &&& forall|k: int|
            0 <= k < self.slot_count() ==> #[trigger] self.descriptors@[k].id == self.lut@[k].id
    }

    /// Returns whether the table is encoded in little endian byte order.
    pub fn is_le(&self) -> (r: bool)
        ensures
            r == (self.endianness != 0xff),
    {
        self.endianness != 0xFF
    }

    /// Returns whether the strings in the table are encoded as UTF-16 or SJIS.
    pub fn is_utf16(&self) -> (r: bool)
        ensures
            r == (self.format_flags % 2 == 1),
    {
        self.format_flags % 2 == 1
    }

    /// Returns whether the table supports 64-bit addressing.
    pub fn is_64bit(&self) -> (r: bool)
        ensures
            r == ((self.format_flags / 2) % 2 == 1),
    {
        (self.format_flags / 2) % 2 == 1
    }

    /// Whether the table uses 64-bit addressing and wide descriptors, which is
    /// the mode every mutating operation requires.
    pub open spec fn spec_is_large_mode(self) -> bool {
        (self.format_flags / 2) % 2 == 1 && (self.layout_flags % 128 == 4 || self.layout_flags
            == 0x85)
    }

    /// Returns whether the table uses 64-bit addressing and wide descriptors.
    pub fn is_large_mode(&self) -> (r: bool)
        ensures
            r == self.spec_is_large_mode(),
    {
        self.is_64bit() && (self.layout_flags % 128 == 4 || self.layout_flags == 0x85)
    }

    /// Returns whether the table uses the "new" layout format version.
    pub fn is_new_layout(&self) -> (r: bool)
        ensures
            r == (self.layout_flags >= 128),
    {
        self.layout_flags >= 128
    }

    /// The number of rows in the table's lookup table.
    pub fn row_count(&self) -> (r: Result<usize, Error>)
        ensures
            r == Ok::<usize, Error>(self.lut@.len() as usize),
    {
        Ok(self.lut.len())
    }

    /// The byte offset of the descriptor array for the table's layout.
    ///
    /// # Errors:
    /// - [`Error::Malformed`] if the layout discriminant is not a known one.
    pub fn row_descriptor_offset(&self) -> (r: Result<usize, Error>)
        ensures
            r == self.spec_row_descriptor_offset(),
    {
        match self.layout_flags % 128 {
            2 => Ok(0x30),
            3 => Ok(0x40),
            4 => Ok(0x40),
            5 => Ok(0x40),
            _ => Err(Error::Malformed),
        }
    }

    /// What [`FileHeader::row_descriptor_offset`] returns.
    pub open spec fn spec_row_descriptor_offset(self) -> Result<usize, Error> {
        let low = self.layout_flags % 128;
        if low == 2 {
            Ok(0x30)
        } else if low == 3 || low == 4 || low == 5 {
            Ok(0x40)
        } else {
            Err(Error::Malformed)
        }
    }
}

/// Every position a free chain visits indexes the LUT's non-sentinel prefix.
pub proof fn lemma_chain_members_in_range(lut: Seq<LutEntry>, head: int, fuel: nat)
    ensures
        forall|i: int|
            0 <= i < free_chain(lut, head, fuel).len() ==> 0 <= #[trigger] free_chain(
                lut,
                head,
                fuel,
            )[i] < lut.len() - 1,
    decreases fuel,
{
    if fuel == 0 || head < 0 || head >= lut.len() - 1 {
    } else {
        lemma_chain_members_in_range(lut, link_not(lut[head].index as int), (fuel - 1) as nat);
        assert forall|i: int| 0 <= i < free_chain(lut, head, fuel).len() implies 0 <= #[trigger] free_chain(
            lut,
            head,
            fuel,
        )[i] < lut.len() - 1 by {
            if i > 0 {
                assert(free_chain(lut, head, fuel)[i] == free_chain(
                    lut,
                    link_not(lut[head].index as int),
                    (fuel - 1) as nat,
                )[i - 1]);
            }
        }
    }
}

/// A free chain that was not cut off by its fuel does not depend on the exact
/// fuel: any fuel beyond the chain's length reads the same chain.
pub proof fn lemma_chain_fuel(lut: Seq<LutEntry>, head: int, fuel1: nat, fuel2: nat)
    requires
        free_chain(lut, head, fuel1).len() < fuel1,
        free_chain(lut, head, fuel1).len() < fuel2,
    ensures
        free_chain(lut, head, fuel2) == free_chain(lut, head, fuel1),
    decreases fuel1,
{
    if head < 0 || head >= lut.len() - 1 {
        assert(free_chain(lut, head, fuel1) =~= free_chain(lut, head, fuel2));
    } else {
        let next = link_not(lut[head].index as int);
        lemma_chain_fuel(lut, next, (fuel1 - 1) as nat, (fuel2 - 1) as nat);
        assert(free_chain(lut, head, fuel1) =~= free_chain(lut, head, fuel2));
    }
}

/// A free chain only reads the LUT entries at the positions it visits: a LUT
/// of the same length that agrees on those positions has the same chain.
pub proof fn lemma_chain_local(lut1: Seq<LutEntry>, lut2: Seq<LutEntry>, head: int, fuel: nat)
    requires
        lut1.len() == lut2.len(),
        forall|i: int|
            0 <= i < free_chain(lut1, head, fuel).len() ==> lut2[#[trigger] free_chain(
                lut1,
                head,
                fuel,
            )[i]] == lut1[free_chain(lut1, head, fuel)[i]],
    ensures
        free_chain(lut2, head, fuel) == free_chain(lut1, head, fuel),
    decreases fuel,
{
    if fuel == 0 || head < 0 || head >= lut1.len() - 1 {
        assert(free_chain(lut1, head, fuel) =~= free_chain(lut2, head, fuel));
    } else {
        let c1 = free_chain(lut1, head, fuel);
        assert(c1[0] == head);
        let next = link_not(lut1[head].index as int);
        let r1 = free_chain(lut1, next, (fuel - 1) as nat);
        assert forall|i: int| 0 <= i < r1.len() implies lut2[#[trigger] r1[i]] == lut1[r1[i]] by {
            assert(c1[i + 1] == r1[i]);
        }
        lemma_chain_local(lut1, lut2, next, (fuel - 1) as nat);
        assert(lut2[head] == lut1[head]);
        assert(free_chain(lut1, head, fuel) =~= free_chain(lut2, head, fuel));
    }
}

/// What [`pop_free_lut_entry`] does to a well-formed LUT: on an empty free
/// list it reports [`Error::NeedsRealloc`] and changes nothing; otherwise it
/// takes the head slot out of the chain, marks it occupied, points the
/// sentinel at the rest of the chain, and returns the head slot's id and
/// position.
pub open spec fn pop_post(
    old_lut: Seq<LutEntry>,
    new_lut: Seq<LutEntry>,
    r: Result<(u32, usize), Error>,
) -> bool {
    let c = chain_of(old_lut);
    if c.len() == 0 {
        r == Err::<(u32, usize), Error>(Error::NeedsRealloc) && new_lut == old_lut
    } else {
        let h = c[0];
        &&& r == Ok::<(u32, usize), Error>((old_lut[h].id, h as usize))
        &&& new_lut == old_lut.update(
            h,
            LutEntry { id: old_lut[h].id, index: h as i32 },
        ).update(
            old_lut.len() - 1,
            LutEntry { id: u32::MAX, index: link_not(old_lut[h].index as int) as i32 },
        )
        &&& lut_wf(new_lut)
        &&& chain_of(new_lut) == c.drop_first()
    }
}

/// Tries to pop an entry from the free list.
///
/// Requires at least one reallocation that inserts a sentinel entry with id
/// `u32::MAX` that keeps track of the next free list entry.
///
/// # Errors:
/// - [`Error::NeedsRealloc`] if the sentinel is absent or the free list is
///   exhausted.
/// - [`Error::Malformed`] if the free-list head does not point at a free slot.
pub fn pop_free_lut_entry(lut: &mut Vec<LutEntry>) -> (r: Result<(u32, usize), Error>)
    ensures
        final(lut)@.len() == old(lut)@.len(),
        forall|k: int| 0 <= k < final(lut)@.len() ==> final(lut)@[k].id == old(lut)@[k].id,
        lut_wf(old(lut)@) ==> pop_post(old(lut)@, final(lut)@, r),
{
    let ghost old_lut = lut@;
    let n1 = lut.len();
    if n1 == 0 {
        return Err(Error::NeedsRealloc);
    }
    let sentinel = lut[n1 - 1];
    if sentinel.id != u32::MAX {
        return Err(Error::NeedsRealloc);
    }
    let h = sentinel.index;
    if h < 0 || h as usize >= n1 - 1 {
        return Err(Error::NeedsRealloc);
    }
    let hu = h as usize;
    let head_entry = lut[hu];
    if head_entry.index >= 0 {
        return Err(Error::Malformed);
    }
    let id = head_entry.id;
    lut.set(hu, LutEntry { id, index: h });
    lut.set(n1 - 1, LutEntry { id: u32::MAX, index: -1 - head_entry.index });
    proof {
        if lut_wf(old_lut) {
            lemma_pop_shape(old_lut, lut@, h as int);
        }
    }
    Ok((id, hu))
}

/// The proof that popping the free-list head preserves well-formedness and
/// drops exactly the head from the chain.
proof fn lemma_pop_shape(old_lut: Seq<LutEntry>, new_lut: Seq<LutEntry>, h: int)
    requires
        lut_wf(old_lut),
        0 <= h < old_lut.len() - 1,
        old_lut.last().index == h,
        old_lut[h].index < 0,
        new_lut == old_lut.update(h, LutEntry { id: old_lut[h].id, index: h as i32 }).update(
            old_lut.len() - 1,
            LutEntry { id: u32::MAX, index: link_not(old_lut[h].index as int) as i32 },
        ),
    ensures
        chain_of(old_lut).len() > 0,
        chain_of(old_lut)[0] == h,
        lut_wf(new_lut),
        chain_of(new_lut) == chain_of(old_lut).drop_first(),
{
    let n1 = old_lut.len();
    let c = chain_of(old_lut);
    let h2 = link_not(old_lut[h].index as int);
    let rest = free_chain(old_lut, h2, (n1 - 1) as nat);
    assert(c == seq![h] + rest);
    assert(c[0] == h);
    assert(c.drop_first() =~= rest);
    lemma_chain_members_in_range(old_lut, h, n1 as nat);
    // The chain has no duplicates and its members live in the prefix of
    // length n1 - 1, so it is shorter than its fuel.
    c.unique_seq_to_set();
    vstd::seq_lib::seq_to_set_is_finite::<int>(c);
    assert(c.to_set().len() == c.len());
    assert forall|x: int| c.to_set().contains(x) implies 0 <= x < n1 - 1 by {
        assert(c.contains(x));
    }
    lemma_member_bound_set(c.to_set(), n1 - 1);
    assert(c.len() <= n1 - 1);
    // The tail chain ignores the two updated positions.
    assert forall|i: int| 0 <= i < rest.len() implies new_lut[#[trigger] rest[i]] == old_lut[rest[i]] by {
        assert(c[i + 1] == rest[i]);
        assert(c.no_duplicates());
        assert(rest[i] != h);
        assert(0 <= rest[i] < n1 - 1);
    }
    lemma_chain_local(old_lut, new_lut, h2, (n1 - 1) as nat);
    assert(rest.len() < (n1 - 1) as nat || rest.len() == (n1 - 1) as nat);
    assert(rest.len() <= n1 - 2);
    lemma_chain_fuel(new_lut, h2, (n1 - 1) as nat, n1 as nat);
    assert(chain_of(new_lut) == rest);
    // Well-formedness of the updated LUT.
    assert forall|k: int| 0 <= k < n1 - 1 implies (#[trigger] new_lut[k].index < 0 <==> chain_of(
        new_lut,
    ).contains(k)) by {
        if k == h {
            assert(new_lut[k].index == h as i32);
            if rest.contains(k) {
                let i = choose|i: int| 0 <= i < rest.len() && rest[i] == k;
                assert(c[i + 1] == h);
                assert(c[0] == h);
                assert(false);
            }
        } else {
            assert(new_lut[k].index == old_lut[k].index);
            assert(old_lut[k].index < 0 <==> c.contains(k));
            if c.contains(k) {
                let i = choose|i: int| 0 <= i < c.len() && c[i] == k;
                assert(i != 0);
                assert(rest[i - 1] == k);
            }
            if rest.contains(k) {
                let i = choose|i: int| 0 <= i < rest.len() && rest[i] == k;
                assert(c[i + 1] == k);
            }
        }
    }
    assert(lut_wf(new_lut));
}

/// A finite set of integers drawn from `[0, bound)` has at most `bound`
/// elements.
proof fn lemma_member_bound_set(s: Set<int>, bound: int)
    requires
        s.finite(),
        forall|x: int| s.contains(x) ==> 0 <= x < bound,
        bound >= 0,
    ensures
        s.len() <= bound,
    decreases bound,
{
    if bound == 0 {
        if s.len() > 0 {
            let x = s.choose();
            assert(s.contains(x));
        }
        assert(s =~= Set::empty());
    } else {
        let smaller = s.remove(bound - 1);
        lemma_member_bound_set(smaller, bound - 1);
        if s.contains(bound - 1) {
            assert(s.len() == smaller.len() + 1);
        } else {
            assert(s =~= smaller);
        }
    }
}

/// What [`push_free_lut_entry`] does to a well-formed LUT when the pushed
/// slot's id round-trips through a non-negative `i32`: a position outside the
/// prefix reports [`Error::NotInTable`], an already free slot reports
/// [`Error::Malformed`], and a live slot becomes the new head of the free
/// list, its link pointing at the old head.
pub open spec fn push_post(
    old_lut: Seq<LutEntry>,
    new_lut: Seq<LutEntry>,
    index: int,
    r: Result<usize, Error>,
) -> bool {
    if !(0 <= index < old_lut.len() - 1) {
        r == Err::<usize, Error>(Error::NotInTable) && new_lut == old_lut
    } else if old_lut[index].index < 0 {
        r == Err::<usize, Error>(Error::Malformed) && new_lut == old_lut
    } else {
        &&& r == Ok::<usize, Error>(old_lut[index].index as usize)
        &&& new_lut == old_lut.update(
            index,
            LutEntry {
                id: old_lut[index].id,
                index: link_not(old_lut.last().index as int) as i32,
            },
        ).update(old_lut.len() - 1, LutEntry { id: u32::MAX, index: index as i32 })
        &&& (old_lut[index].id <= i32::MAX as u32 ==> lut_wf(new_lut) && chain_of(new_lut)
            == seq![index].add(chain_of(old_lut)))
    }
}

/// Pushes the slot at `index` to the head of the free list.
///
/// Requires at least one reallocation that inserts a sentinel entry with id
/// `u32::MAX` that keeps track of the next free list entry.
///
/// # Errors:
/// - [`Error::NeedsRealloc`] if the sentinel is absent.
/// - [`Error::NotInTable`] if `index` is outside the lookup table.
/// - [`Error::Malformed`] if the slot at `index` is already free.
pub fn push_free_lut_entry(lut: &mut Vec<LutEntry>, index: usize) -> (r: Result<usize, Error>)
    ensures
        final(lut)@.len() == old(lut)@.len(),
        forall|k: int| 0 <= k < final(lut)@.len() ==> final(lut)@[k].id == old(lut)@[k].id,
        lut_wf(old(lut)@) ==> push_post(old(lut)@, final(lut)@, index as int, r),
{
    let ghost old_lut = lut@;
    let n1 = lut.len();
    if n1 == 0 {
        return Err(Error::NeedsRealloc);
    }
    let sentinel = lut[n1 - 1];
    if sentinel.id != u32::MAX {
        return Err(Error::NeedsRealloc);
    }
    if index >= n1 - 1 {
        return Err(Error::NotInTable);
    }
    let pushed = lut[index];
    if pushed.index < 0 {
        return Err(Error::Malformed);
    }
    let link = if sentinel.index >= 0 {
        -1 - sentinel.index
    } else {
        // A head that points nowhere valid still gets a negative link so the
        // pushed slot reads as free.
        i32::MIN
    };
    lut.set(index, LutEntry { id: pushed.id, index: link });
    lut.set(n1 - 1, LutEntry { id: u32::MAX, index: #[verifier::truncate] (index as i32) });
    proof {
        if lut_wf(old_lut) && old_lut[index as int].id <= i32::MAX as u32 {
            lemma_push_shape(old_lut, lut@, index as int);
        }
    }
    Ok(pushed.index as usize)
}

/// The proof that pushing a live slot onto the free list preserves
/// well-formedness and prepends exactly that slot to the chain.
proof fn lemma_push_shape(old_lut: Seq<LutEntry>, new_lut: Seq<LutEntry>, k: int)
    requires
        lut_wf(old_lut),
        0 <= k < old_lut.len() - 1,
        old_lut[k].index >= 0,
        old_lut[k].id <= i32::MAX as u32,
        new_lut == old_lut.update(
            k,
            LutEntry { id: old_lut[k].id, index: link_not(old_lut.last().index as int) as i32 },
        ).update(old_lut.len() - 1, LutEntry { id: u32::MAX, index: k as i32 }),
    ensures
        lut_wf(new_lut),
        chain_of(new_lut) == seq![k].add(chain_of(old_lut)),
    decreases 0int,
{
    let n1 = old_lut.len();
    let c = chain_of(old_lut);
    let old_head = old_lut.last().index as int;
    lemma_chain_members_in_range(old_lut, old_head, n1 as nat);
    c.unique_seq_to_set();
    vstd::seq_lib::seq_to_set_is_finite::<int>(c);
    assert(c.to_set().len() == c.len());
    // The pushed slot was live, so the old chain avoids it and is shorter
    // than the free prefix.
    assert(!c.contains(k));
    assert forall|x: int| c.to_set().contains(x) implies 0 <= x < n1 - 1 && x != k by {
        assert(c.contains(x));
    }
    lemma_member_bound_set_excluding(c.to_set(), n1 - 1, k);
    assert(c.len() <= n1 - 2);
    assert forall|i: int| 0 <= i < c.len() implies new_lut[#[trigger] c[i]] == old_lut[c[i]] by {
        assert(c.contains(c[i]));
    }
    lemma_chain_local(old_lut, new_lut, old_head, n1 as nat);
    lemma_chain_fuel(new_lut, old_head, n1 as nat, (n1 - 1) as nat);
    assert(new_lut[k].index == link_not(old_head));
    assert(link_not(new_lut[k].index as int) == old_head);
    assert(chain_of(new_lut) == free_chain(new_lut, k, n1 as nat));
    assert(free_chain(new_lut, k, n1 as nat) == seq![k] + free_chain(
        new_lut,
        old_head,
        (n1 - 1) as nat,
    ));
    let nc = chain_of(new_lut);
    assert(nc =~= seq![k].add(c));
    assert forall|j: int| 0 <= j < n1 - 1 implies (#[trigger] new_lut[j].index < 0 <==> nc.contains(
        j,
    )) by {
        if j == k {
            assert(nc[0] == k);
            assert(nc.contains(k));
        } else {
            assert(new_lut[j].index == old_lut[j].index);
            if nc.contains(j) {
                let i = choose|i: int| 0 <= i < nc.len() && nc[i] == j;
                assert(i != 0);
                assert(c[i - 1] == j);
            }
            if c.contains(j) {
                let i = choose|i: int| 0 <= i < c.len() && c[i] == j;
                assert(nc[i + 1] == j);
            }
        }
    }
    assert(nc.no_duplicates());
    assert(lut_wf(new_lut));
}

/// A finite set of integers drawn from `[0, bound)` that avoids one value of
/// that range has fewer than `bound` elements.
proof fn lemma_member_bound_set_excluding(s: Set<int>, bound: int, hole: int)
    requires
        s.finite(),
        forall|x: int| s.contains(x) ==> 0 <= x < bound && x != hole,
        0 <= hole < bound,
    ensures
        s.len() <= bound - 1,
{
    lemma_member_bound_set(s.insert(hole), bound);
    assert(s.insert(hole).len() == s.len() + 1);
}

/// Searches the LUT for the entry with exactly id `id` by binary search.
///
/// The match is sound for any input; it is exhaustive when the LUT is sorted
/// by id, which every well-formed table guarantees.
pub fn find_lut_entry(lut: &Vec<LutEntry>, id: u32) -> (r: Option<usize>)
    ensures
        match r {
            Some(k) => 0 <= k < lut@.len() && lut@[k as int].id == id,
            None => (forall|i: int, j: int| 0 <= i < j < lut@.len() ==> lut@[i].id <= lut@[j].id)
                ==> (forall|k: int| 0 <= k < lut@.len() ==> lut@[k].id != id),
        },
{
    let ghost sorted = forall|i: int, j: int| 0 <= i < j < lut@.len() ==> lut@[i].id <= lut@[j].id;
    let mut lo: usize = 0;
    let mut hi: usize = lut.len();
    while lo < hi
        invariant
            lo <= hi <= lut@.len(),
            sorted == (forall|i: int, j: int|
                0 <= i < j < lut@.len() ==> lut@[i].id <= lut@[j].id),
            sorted ==> (forall|k: int|
                0 <= k < lut@.len() && !(lo <= k < hi) ==> #[trigger] lut@[k].id != id),
        decreases hi - lo,
    {
        let mid = lo + (hi - lo) / 2;
        let mid_id = lut[mid].id;
        if mid_id < id {
            lo = mid + 1;
        } else if mid_id > id {
            hi = mid;
        } else {
            return Some(mid);
        }
    }
    None
}

/// In a well-formed LUT two distinct positions never carry the same id.
pub proof fn lemma_wf_unique_ids(lut: Seq<LutEntry>)
    requires
        lut_wf(lut),
    ensures
        forall|k1: int, k2: int|
            0 <= k1 < lut.len() && 0 <= k2 < lut.len() && #[trigger] lut[k1].id == #[trigger] lut[k2].id
                ==> k1 == k2,
{
    assert forall|k1: int, k2: int|
        0 <= k1 < lut.len() && 0 <= k2 < lut.len() && #[trigger] lut[k1].id == #[trigger] lut[k2].id
        implies k1 == k2 by {
        if k1 < k2 {
            assert(lut[k1].id < lut[k2].id);
        }
        if k2 < k1 {
            assert(lut[k2].id < lut[k1].id);
        }
    }
}

impl FileHeader {
    /// In a well-formed table, a live slot carrying `id` is the one
    /// [`FileHeader::live_pos`] denotes.
    pub proof fn lemma_live_pos(self, id: u32, k: int)
        requires
            self.wf(),
            self.is_live(k),
            self.lut@[k].id == id,
        ensures
            self.has_live_id(id),
            self.live_pos(id) == k,
    {
        assert(self.has_live_id(id));
        let k2 = self.live_pos(id);
        lemma_wf_unique_ids(self.lut@);
    }

    /// What [`FileHeader::find_row`] returns on a well-formed table.
    pub open spec fn find_spec(self, id: i32) -> Result<u64, Error> {
        if id < 0 {
            Err(Error::NegativeId)
        } else if !self.has_live_id(id as u32) {
            Err(Error::NotInTable)
        } else {
            let p = vstd::wrapping::u64_specs::wrapping_add(self.base, self.live_map()[id as u32]);
            if p == 0 {
                Err(Error::Malformed)
            } else {
                Ok(p)
            }
        }
    }

    /// The descriptor-array position the lookup table assigns to `id`.
    ///
    /// # Errors:
    /// - [`Error::NotInTable`] if no live row carries `id`: the id is absent
    ///   from the LUT, its slot is free, or its recorded position dangles.
    pub fn descriptor_index_by_id(&self, id: u32) -> (r: Result<usize, Error>)
        ensures
            r matches Ok(k) ==> (k as int) < self.descriptors@.len(),
            self.wf() ==> match r {
                Ok(k) => self.has_live_id(id) && k as int == self.live_pos(id),
                Err(e) => e == Error::NotInTable && !self.has_live_id(id),
            },
    {
        if id == u32::MAX {
            proof {
                if self.wf() && self.has_live_id(id) {
                    let w = choose|k: int| self.is_live(k) && self.lut@[k].id == id;
                    assert(self.lut@[w].id < self.lut@[self.slot_count()].id);
                }
            }
            return Err(Error::NotInTable);
        }
        let r = find_lut_entry(&self.lut, id);
        proof {
            if self.wf() {
                assert(forall|i: int, j: int|
                    0 <= i < j < self.lut@.len() ==> self.lut@[i].id <= self.lut@[j].id);
            }
        }
        match r {
            None => {
                proof {
                    if self.wf() && self.has_live_id(id) {
                        let w = choose|k: int| self.is_live(k) && self.lut@[k].id == id;
                        assert(self.lut@[w].id == id);
                    }
                }
                Err(Error::NotInTable)
            },
            Some(k) => {
                let e = self.lut[k];
                proof {
                    if self.wf() {
                        lemma_wf_unique_ids(self.lut@);
                        assert(k < self.lut@.len());
                        assert(self.lut@[self.slot_count()].id == u32::MAX);
                        assert(k as int != self.slot_count());
                    }
                }
                if e.index < 0 {
                    proof {
                        if self.wf() && self.has_live_id(id) {
                            let w = choose|j: int| self.is_live(j) && self.lut@[j].id == id;
                            assert(self.lut@[w].id == self.lut@[k as int].id);
                        }
                    }
                    return Err(Error::NotInTable);
                }
                let idx = e.index as usize;
                if idx >= self.descriptors.len() {
                    proof {
                        if self.wf() {
                            assert(self.lut@[k as int].index == k as i32);
                            assert(false);
                        }
                    }
                    return Err(Error::NotInTable);
                }
                proof {
                    if self.wf() {
                        assert(self.lut@[k as int].index == k as i32);
                        self.lemma_live_pos(id, k as int);
                    }
                }
                Ok(idx)
            },
        }
    }

    /// Searches for a row by its id with a binary search, returning a pointer
    /// to its field data, resolved as `base + offset`.
    ///
    /// # Errors:
    /// - [`Error::NegativeId`] if `id` is negative.
    /// - [`Error::NotInTable`] if no live row carries `id`.
    /// - [`Error::Malformed`] if the resolved pointer would be null.
    pub fn find_row(&self, id: i32) -> (r: Result<u64, Error>)
        ensures
            self.wf() ==> r == self.find_spec(id),
    {
        if id < 0 {
            return Err(Error::NegativeId);
        }
        let idu = id as u32;
        let k = match self.descriptor_index_by_id(idu) {
            Ok(k) => k,
            Err(e) => {
                return Err(e);
            },
        };
        let d = self.descriptors[k];
        if d.id != idu {
            proof {
                if self.wf() {
                    assert(self.descriptors@[k as int].id == self.lut@[k as int].id);
                    assert(false);
                }
            }
            return Err(Error::NotInTable);
        }
        let p = self.base.wrapping_add(d.data_offset);
        proof {
            if self.wf() {
                assert(self.live_map()[idu] == self.descriptors@[self.live_pos(idu)].data_offset);
            }
        }
        if p == 0 {
            Err(Error::Malformed)
        } else {
            Ok(p)
        }
    }
}

/// Byte addresses add in wrapping 64-bit arithmetic.
pub open spec fn wadd(a: u64, b: u64) -> u64 {
    vstd::wrapping::u64_specs::wrapping_add(a, b)
}

/// Byte addresses subtract in wrapping 64-bit arithmetic.
pub open spec fn wsub(a: u64, b: u64) -> u64 {
    vstd::wrapping::u64_specs::wrapping_sub(a, b)
}

/// Whether two tables agree on every header field, the stored name and the
/// base address.
pub open spec fn same_header(a: FileHeader, b: FileHeader) -> bool {
    &&& a.version == b.version
    &&& a.endianness == b.endianness
    &&& a.layout_flags == b.layout_flags
    &&& a.format_flags == b.format_flags
    &&& a.row_count == b.row_count
    &&& a.data_offset == b.data_offset
    &&& a.name_bytes@ == b.name_bytes@
    &&& a.base == b.base
}

/// Whether two tables hold the same value.
pub open spec fn table_unchanged(a: FileHeader, b: FileHeader) -> bool {
    &&& same_header(a, b)
    &&& a.lut@ == b.lut@
    &&& a.descriptors@ == b.descriptors@
}

impl FileHeader {
    /// Proof that updating the descriptor at slot `k` to `off`, while keeping
    /// or making that slot live and all other slots' liveness intact, updates
    /// the table's mapping at exactly the id of slot `k`.
    proof fn lemma_live_map_set(old_t: FileHeader, new_t: FileHeader, k: int, off: u64)
        requires
            old_t.wf(),
            new_t.wf(),
            0 <= k < old_t.slot_count(),
            new_t.lut@.len() == old_t.lut@.len(),
            forall|j: int|
                0 <= j < old_t.lut@.len() ==> #[trigger] new_t.lut@[j].id == old_t.lut@[j].id,
            new_t.is_live(k),
            forall|j: int|
                0 <= j < old_t.slot_count() && j != k ==> (#[trigger] new_t.is_live(j)
                    <==> old_t.is_live(j)),
            new_t.descriptors@ == old_t.descriptors@.update(
                k,
                RowDescriptor { id: old_t.lut@[k].id, data_offset: off },
            ),
        ensures
            new_t.live_map() == old_t.live_map().insert(old_t.lut@[k].id, off),
    {
        let id = old_t.lut@[k].id;
        lemma_wf_unique_ids(old_t.lut@);
        lemma_wf_unique_ids(new_t.lut@);
        assert forall|x: u32| #[trigger] new_t.has_live_id(x) implies x == id || old_t.has_live_id(
            x,
        ) by {
            let j = choose|j: int| new_t.is_live(j) && new_t.lut@[j].id == x;
            if j != k {
                assert(old_t.is_live(j));
            }
        }
        assert forall|x: u32| old_t.has_live_id(x) implies new_t.has_live_id(x) by {
            let j = choose|j: int| old_t.is_live(j) && old_t.lut@[j].id == x;
            if j == k {
                assert(new_t.is_live(k));
            } else {
                assert(new_t.is_live(j));
            }
            assert(new_t.lut@[j].id == x);
        }
        assert(new_t.has_live_id(id)) by {
            assert(new_t.is_live(k) && new_t.lut@[k].id == id);
        }
        assert forall|x: u32| #[trigger] new_t.live_map().contains_key(x) implies new_t.live_map()[x]
            == old_t.live_map().insert(id, off)[x] by {
            let j = new_t.live_pos(x);
            assert(new_t.is_live(j) && new_t.lut@[j].id == x);
            if x == id {
                assert(j == k);
                assert(new_t.descriptors@[k].data_offset == off);
            } else {
                assert(j != k);
                assert(old_t.is_live(j));
                old_t.lemma_live_pos(x, j);
                assert(new_t.descriptors@[j] == old_t.descriptors@[j]);
            }
        }
        assert(new_t.live_map() =~= old_t.live_map().insert(id, off));
    }

    /// Proof that freeing the live slot `k`, with descriptors and every other
    /// slot's liveness intact, removes exactly the id of slot `k` from the
    /// table's mapping.
    proof fn lemma_live_map_remove(old_t: FileHeader, new_t: FileHeader, k: int)
        requires
            old_t.wf(),
            new_t.wf(),
            old_t.is_live(k),
            !new_t.is_live(k),
            new_t.lut@.len() == old_t.lut@.len(),
            forall|j: int|
                0 <= j < old_t.lut@.len() ==> #[trigger] new_t.lut@[j].id == old_t.lut@[j].id,
            forall|j: int|
                0 <= j < old_t.slot_count() && j != k ==> (#[trigger] new_t.is_live(j)
                    <==> old_t.is_live(j)),
            new_t.descriptors@ == old_t.descriptors@,
        ensures
            new_t.live_map() == old_t.live_map().remove(old_t.lut@[k].id),
    {
        let id = old_t.lut@[k].id;
        lemma_wf_unique_ids(old_t.lut@);
        lemma_wf_unique_ids(new_t.lut@);
        assert forall|x: u32| #[trigger] new_t.has_live_id(x) implies x != id && old_t.has_live_id(
            x,
        ) by {
            let j = choose|j: int| new_t.is_live(j) && new_t.lut@[j].id == x;
            assert(j != k);
            assert(old_t.is_live(j));
            if x == id {
                assert(old_t.lut@[j].id == old_t.lut@[k].id);
            }
        }
        assert forall|x: u32| old_t.has_live_id(x) && x != id implies new_t.has_live_id(x) by {
            let j = choose|j: int| old_t.is_live(j) && old_t.lut@[j].id == x;
            assert(j != k);
            assert(new_t.is_live(j) && new_t.lut@[j].id == x);
        }
        assert forall|x: u32| #[trigger] new_t.live_map().contains_key(x) implies new_t.live_map()[x]
            == old_t.live_map().remove(id)[x] by {
            let j = new_t.live_pos(x);
            assert(new_t.is_live(j) && new_t.lut@[j].id == x);
            assert(j != k);
            assert(old_t.is_live(j));
            old_t.lemma_live_pos(x, j);
        }
        assert(new_t.live_map() =~= old_t.live_map().remove(id));
    }

    /// What [`FileHeader::insert_row`] does to a well-formed table: in a mode
    /// without the free list, or with the free list exhausted, it reports
    /// [`Error::NeedsRealloc`] and changes nothing; otherwise it pops the
    /// head slot off the free list, stores `data`'s offset in that slot's
    /// descriptor, and returns the id that was reserved for the slot.
    pub open spec fn insert_post(
        old_t: FileHeader,
        new_t: FileHeader,
        data: u64,
        r: Result<i32, Error>,
    ) -> bool {
        if !old_t.spec_is_large_mode() || chain_of(old_t.lut@).len() == 0 {
            r == Err::<i32, Error>(Error::NeedsRealloc) && table_unchanged(old_t, new_t)
        } else {
            let h = chain_of(old_t.lut@)[0];
            let id = old_t.lut@[h].id;
            let off = wsub(data, old_t.base);
            &&& r == Ok::<i32, Error>(id as i32)
            &&& same_header(old_t, new_t)
            &&& new_t.wf()
            &&& pop_post(old_t.lut@, new_t.lut@, Ok((id, h as usize)))
            &&& new_t.descriptors@ == old_t.descriptors@.update(
                h,
                RowDescriptor { id, data_offset: off },
            )
            &&& new_t.live_map() == old_t.live_map().insert(id, off)
            &&& chain_of(new_t.lut@) == chain_of(old_t.lut@).drop_first()
        }
    }

    /// Tries to insert a new row with fields at address `data` and returns
    /// its non-negative id. Ids are pre-assigned to free slots at
    /// reallocation time, not chosen by the caller.
    ///
    /// # Errors:
    /// - [`Error::NeedsRealloc`] if insertion can only happen after a
    ///   reallocation (no free list, or no free slot left).
    /// - [`Error::Malformed`] if popping from the free list returned an
    ///   entry inconsistent with its descriptor.
    pub fn insert_row(&mut self, data: u64) -> (r: Result<i32, Error>)
        ensures
            old(self).wf() ==> Self::insert_post(*old(self), *final(self), data, r),
    {
        if !self.is_large_mode() {
            return Err(Error::NeedsRealloc);
        }
        let ghost old_t = *self;
        match pop_free_lut_entry(&mut self.lut) {
            Err(e) => Err(e),
            Ok((id, h)) => {
                proof {
                    if old_t.wf() {
                        assert(chain_of(old_t.lut@).len() > 0);
                        assert(h as int == chain_of(old_t.lut@)[0]);
                        lemma_chain_members_in_range(
                            old_t.lut@,
                            old_t.lut@.last().index as int,
                            old_t.lut@.len() as nat,
                        );
                        assert(0 <= (h as int) && (h as int) < old_t.slot_count());
                    }
                }
                if id > 0x7fff_ffff {
                    return Err(Error::Malformed);
                }
                let inserted_id = id as i32;
                if h >= self.descriptors.len() {
                    return Err(Error::Malformed);
                }
                let d = self.descriptors[h];
                if d.id != id {
                    return Err(Error::Malformed);
                }
                let off = data.wrapping_sub(self.base);
                self.descriptors.set(h, RowDescriptor { id, data_offset: off });
                proof {
                    if old_t.wf() {
                        let hh = h as int;
                        assert(self.wf()) by {
                            assert(lut_wf(self.lut@));
                            assert(forall|k: int|
                                0 <= k < self.slot_count() ==> #[trigger] self.descriptors@[k].id
                                    == self.lut@[k].id);
                        }
                        assert(self.is_live(hh));
                        assert forall|j: int|
                            0 <= j < old_t.slot_count() && j != hh implies (
                        #[trigger] self.is_live(j) <==> old_t.is_live(j)) by {
                            assert(self.lut@[j] == old_t.lut@[j]);
                        }
                        Self::lemma_live_map_set(old_t, *self, hh, off);
                    }
                }
                Ok(inserted_id)
            },
        }
    }

    /// What [`FileHeader::replace_row`] does to a well-formed table: without
    /// the free list it reports [`Error::NeedsRealloc`]; a negative id or an
    /// id without a live row fails; otherwise it swaps the row's data offset
    /// for `data`'s and returns the previous pointer, or
    /// [`Error::Malformed`] if that pointer would be null.
    pub open spec fn replace_post(
        old_t: FileHeader,
        new_t: FileHeader,
        id: i32,
        data: u64,
        r: Result<u64, Error>,
    ) -> bool {
        if !old_t.spec_is_large_mode() {
            r == Err::<u64, Error>(Error::NeedsRealloc) && table_unchanged(old_t, new_t)
        } else if id < 0 {
            r == Err::<u64, Error>(Error::NegativeId) && table_unchanged(old_t, new_t)
        } else if !old_t.has_live_id(id as u32) {
            r == Err::<u64, Error>(Error::NotInTable) && table_unchanged(old_t, new_t)
        } else {
            let k = old_t.live_pos(id as u32);
            let off = wsub(data, old_t.base);
            let old_ptr = wadd(old_t.base, old_t.descriptors@[k].data_offset);
            &&& same_header(old_t, new_t)
            &&& new_t.lut@ == old_t.lut@
            &&& new_t.descriptors@ == old_t.descriptors@.update(
                k,
                RowDescriptor { id: old_t.lut@[k].id, data_offset: off },
            )
            &&& new_t.wf()
            &&& new_t.live_map() == old_t.live_map().insert(id as u32, off)
            &&& r == (if old_ptr == 0 {
                Err::<u64, Error>(Error::Malformed)
            } else {
                Ok::<u64, Error>(old_ptr)
            })
        }
    }

    /// Searches for a row by its id with a binary search and replaces its
    /// fields with those at address `data`, returning a pointer to its old
    /// field data.
    ///
    /// # Errors:
    /// - [`Error::NegativeId`] if `id` is negative.
    /// - [`Error::NotInTable`] if no live row carries `id`.
    /// - [`Error::NeedsRealloc`] if replacement can only happen after a
    ///   reallocation.
    /// - [`Error::Malformed`] if the previous pointer would be null.
    pub fn replace_row(&mut self, id: i32, data: u64) -> (r: Result<u64, Error>)
        ensures
            old(self).wf() ==> Self::replace_post(*old(self), *final(self), id, data, r),
    {
        if !self.is_large_mode() {
            return Err(Error::NeedsRealloc);
        }
        if id < 0 {
            return Err(Error::NegativeId);
        }
        let idu = id as u32;
        let ghost old_t = *self;
        let k = match self.descriptor_index_by_id(idu) {
            Ok(k) => k,
            Err(e) => {
                return Err(e);
            },
        };
        let d = self.descriptors[k];
        let off = data.wrapping_sub(self.base);
        self.descriptors.set(k, RowDescriptor { id: d.id, data_offset: off });
        proof {
            if old_t.wf() {
                let kk = k as int;
                assert(old_t.descriptors@[kk].id == old_t.lut@[kk].id);
                assert(self.wf());
                assert(self.is_live(kk));
                assert forall|j: int|
                    0 <= j < old_t.slot_count() && j != kk implies (#[trigger] self.is_live(j)
                    <==> old_t.is_live(j)) by {}
                Self::lemma_live_map_set(old_t, *self, kk, off);
            }
        }
        let old_ptr = self.base.wrapping_add(d.data_offset);
        if old_ptr == 0 {
            Err(Error::Malformed)
        } else {
            Ok(old_ptr)
        }
    }

    /// What [`FileHeader::delete_row`] does to a well-formed table: without
    /// the free list it reports [`Error::NeedsRealloc`]; a negative id or an
    /// id without a live row fails; otherwise it pushes the row's slot onto
    /// the head of the free list and returns the row's previous data
    /// pointer, or [`Error::Malformed`] if that pointer would be null.
    pub open spec fn delete_post(
        old_t: FileHeader,
        new_t: FileHeader,
        id: i32,
        r: Result<u64, Error>,
    ) -> bool {
        if !old_t.spec_is_large_mode() {
            r == Err::<u64, Error>(Error::NeedsRealloc) && table_unchanged(old_t, new_t)
        } else if id < 0 {
            r == Err::<u64, Error>(Error::NegativeId) && table_unchanged(old_t, new_t)
        } else if !old_t.has_live_id(id as u32) {
            r == Err::<u64, Error>(Error::NotInTable) && table_unchanged(old_t, new_t)
        } else {
            let k = old_t.live_pos(id as u32);
            let old_ptr = wadd(old_t.base, old_t.descriptors@[k].data_offset);
            &&& same_header(old_t, new_t)
            &&& push_post(old_t.lut@, new_t.lut@, k, Ok(k as usize))
            &&& new_t.descriptors@ == old_t.descriptors@
            &&& new_t.wf()
            &&& new_t.live_map() == old_t.live_map().remove(id as u32)
            &&& chain_of(new_t.lut@) == seq![k].add(chain_of(old_t.lut@))
            &&& r == (if old_ptr == 0 {
                Err::<u64, Error>(Error::Malformed)
            } else {
                Ok::<u64, Error>(old_ptr)
            })
        }
    }

    /// Searches for a row by its id with a binary search and deletes it,
    /// returning a pointer to its old field data. The slot becomes the head
    /// of the free list and its id can be handed out again by a later
    /// insertion.
    ///
    /// # Errors:
    /// - [`Error::NegativeId`] if `id` is negative.
    /// - [`Error::NotInTable`] if no live row carries `id`.
    /// - [`Error::NeedsRealloc`] if deletion can only happen after a
    ///   reallocation.
    /// - [`Error::Malformed`] if pushing to the free list returned an invalid
    ///   entry, or the previous pointer would be null.
    pub fn delete_row(&mut self, id: i32) -> (r: Result<u64, Error>)
        ensures
            old(self).wf() ==> Self::delete_post(*old(self), *final(self), id, r),
    {
        if !self.is_large_mode() {
            return Err(Error::NeedsRealloc);
        }
        if id < 0 {
            return Err(Error::NegativeId);
        }
        let idu = id as u32;
        let ghost old_t = *self;
        let k = match self.descriptor_index_by_id(idu) {
            Ok(k) => k,
            Err(e) => {
                return Err(e);
            },
        };
        let idx = match push_free_lut_entry(&mut self.lut, k) {
            Ok(idx) => idx,
            Err(e) => {
                proof {
                    if old_t.wf() {
                        assert(old_t.lut@[k as int].index >= 0);
                        assert(false);
                    }
                }
                return Err(e);
            },
        };
        if idx >= self.descriptors.len() {
            proof {
                if old_t.wf() {
                    assert(old_t.lut@[k as int].index == k as i32);
                    assert(false);
                }
            }
            return Err(Error::Malformed);
        }
        let d = self.descriptors[idx];
        proof {
            if old_t.wf() {
                let kk = k as int;
                assert(old_t.lut@[kk].index == k as i32);
                assert(idx == k);
                assert(idu <= i32::MAX as u32);
                assert(old_t.lut@[kk].id == idu);
                assert(self.wf()) by {
                    assert(lut_wf(self.lut@));
                    assert(forall|j: int|
                        0 <= j < self.slot_count() ==> #[trigger] self.descriptors@[j].id
                            == self.lut@[j].id);
                }
                assert(!self.is_live(kk));
                assert forall|j: int|
                    0 <= j < old_t.slot_count() && j != kk implies (#[trigger] self.is_live(j)
                    <==> old_t.is_live(j)) by {
                    assert(self.lut@[j] == old_t.lut@[j]);
                }
                Self::lemma_live_map_remove(old_t, *self, kk);
            }
        }
        let p = self.base.wrapping_add(d.data_offset);
        if p == 0 {
            Err(Error::Malformed)
        } else {
            Ok(p)
        }
    }
}

/// The position of the first zero byte in `s` at or after `i`, looking no
/// further than `max`.
pub open spec fn nul_len_narrow(s: Seq<u8>, i: int, max: int) -> int
    decreases max - i,
{
    if i < 0 || i >= max || i >= s.len() {
        i
    } else if s[i] == 0 {
        i
    } else {
        nul_len_narrow(s, i + 1, max)
    }
}

/// The position of the first zero 16-bit unit in `s` at or after `i`,
/// scanning two bytes at a time.
pub open spec fn nul_len_wide(s: Seq<u8>, i: int) -> int
    decreases s.len() - i,
{
    if i < 0 || i + 1 >= s.len() {
        i
    } else if s[i] == 0 && s[i + 1] == 0 {
        i
    } else {
        nul_len_wide(s, i + 2)
    }
}

impl FileHeader {
    /// The stored name bytes up to their terminator: a zero byte within the
    /// 32-byte inline region for the old layout, a zero 16-bit unit for the
    /// new layout with UTF-16 strings, and a zero byte otherwise.
    pub open spec fn spec_raw_name(self) -> Seq<u8> {
        let s = self.name_bytes@;
        if self.layout_flags < 128 {
            s.take(nul_len_narrow(s, 0, 32))
        } else if self.format_flags % 2 == 1 {
            s.take(nul_len_wide(s, 0))
        } else {
            s.take(nul_len_narrow(s, 0, s.len() as int))
        }
    }

    /// The name of the param table, decoded from the stored bytes:
    /// SHIFT_JIS for the old layout, UTF-16LE for the new one.
    ///
    /// # Errors:
    /// - [`Error::Malformed`] if the name bytes are not valid for the
    ///   layout's encoding.
    pub fn name(&self) -> (r: Result<String, Error>)
        ensures
            self.layout_flags < 128 ==> match r {
                Ok(nm) => crate::text::shift_jis_decoding(self.spec_raw_name()) == Some(nm@),
                Err(e) => e == Error::Malformed && crate::text::shift_jis_decoding(
                    self.spec_raw_name(),
                ) is None,
            },
            self.layout_flags >= 128 ==> match r {
                Ok(nm) => crate::text::utf16le_decoding(self.spec_raw_name()) == Some(nm@),
                Err(e) => e == Error::Malformed && crate::text::utf16le_decoding(
                    self.spec_raw_name(),
                ) is None,
            },
    {
        let ghost s = self.name_bytes@;
        let bytes = &self.name_bytes;
        let new_layout = self.is_new_layout();
        let wide = self.is_utf16() && new_layout;
        let blen = bytes.len();
        let mut len: usize = 0;
        if wide {
            while len < blen && len + 1 < blen && !(bytes[len] == 0 && bytes[len + 1] == 0)
                invariant
                    s == self.name_bytes@,
                    bytes@ == s,
                    blen == s.len(),
                    0 <= len <= s.len(),
                    nul_len_wide(s, 0) == nul_len_wide(s, len as int),
                decreases s.len() - len,
            {
                len = len + 2;
            }
            proof {
                assert(nul_len_wide(s, len as int) == len);
            }
        } else {
            let max = if !new_layout {
                if blen < 32 {
                    blen
                } else {
                    32
                }
            } else {
                blen
            };
            let ghost smax: int = if !new_layout {
                32
            } else {
                s.len() as int
            };
            while len < max && bytes[len] != 0
                invariant
                    s == self.name_bytes@,
                    bytes@ == s,
                    blen == s.len(),
                    0 <= len <= max,
                    max == (if smax < s.len() {
                        smax
                    } else {
                        s.len() as int
                    }),
                    smax == (if !new_layout {
                        32
                    } else {
                        s.len() as int
                    }),
                    nul_len_narrow(s, 0, smax) == nul_len_narrow(s, len as int, smax),
                decreases max - len,
            {
                len = len + 1;
            }
            proof {
                assert(nul_len_narrow(s, len as int, smax) == len);
            }
        }
        let mut raw: Vec<u8> = Vec::new();
        let mut i: usize = 0;
        while i < len
            invariant
                i <= len,
                len <= self.name_bytes@.len(),
                bytes@ == self.name_bytes@,
                raw@ == self.name_bytes@.take(i as int),
            decreases len - i,
        {
            raw.push(bytes[i]);
            proof {
                assert(raw@ =~= self.name_bytes@.take(i + 1));
            }
            i = i + 1;
        }
        proof {
            assert(raw@ == self.spec_raw_name());
        }
        let decoded = if !new_layout {
            crate::text::decode_shift_jis(raw.as_slice())
        } else {
            crate::text::decode_utf16le(raw.as_slice())
        };
        match decoded {
            Some(nm) => Ok(nm),
            None => Err(Error::Malformed),
        }
    }
}

/// Whether a scanned LUT entry survives reallocation: it is not a sentinel,
/// its id strictly exceeds every id kept so far (so duplicate and out-of-order
/// ids in a damaged table collapse to the first occurrence), and its recorded
/// descriptor position is in bounds.
pub open spec fn keep_entry(prefix: Seq<LutEntry>, e: LutEntry, descs_len: int) -> bool {
    &&& e.id != u32::MAX
    &&& (prefix.len() == 0 || prefix.last().id < e.id)
    &&& 0 <= e.index < descs_len
}

/// The LUT entries of the first `upto` slots that survive reallocation, in
/// scan order.
pub open spec fn survivors(lut: Seq<LutEntry>, descs_len: int, upto: int) -> Seq<LutEntry>
    decreases upto,
{
    if upto <= 0 {
        Seq::empty()
    } else {
        let prefix = survivors(lut, descs_len, upto - 1);
        if keep_entry(prefix, lut[upto - 1], descs_len) {
            prefix.push(lut[upto - 1])
        } else {
            prefix
        }
    }
}

/// Survivors are strictly increasing in id, never the sentinel id, have
/// in-bounds descriptor positions, and are never more numerous than the
/// scanned prefix.
pub proof fn lemma_survivors_shape(lut: Seq<LutEntry>, descs_len: int, upto: int)
    ensures
        survivors(lut, descs_len, upto).len() <= if upto >= 0 { upto } else { 0 },
        forall|i: int, j: int|
            0 <= i < j < survivors(lut, descs_len, upto).len() ==> survivors(
                lut,
                descs_len,
                upto,
            )[i].id < survivors(lut, descs_len, upto)[j].id,
        forall|i: int|
            0 <= i < survivors(lut, descs_len, upto).len() ==> #[trigger] survivors(
                lut,
                descs_len,
                upto,
            )[i].id < u32::MAX && 0 <= survivors(lut, descs_len, upto)[i].index < descs_len,
    decreases upto,
{
    if upto > 0 {
        lemma_survivors_shape(lut, descs_len, upto - 1);
        let prefix = survivors(lut, descs_len, upto - 1);
        let s = survivors(lut, descs_len, upto);
        if keep_entry(prefix, lut[upto - 1], descs_len) {
            assert forall|i: int, j: int| 0 <= i < j < s.len() implies s[i].id < s[j].id by {
                if j < s.len() - 1 {
                } else {
                    assert(s[j] == lut[upto - 1]);
                    if i < prefix.len() && prefix.len() > 0 {
                        assert(prefix[i].id <= prefix.last().id || prefix[i].id < prefix.last().id
                            || i == prefix.len() - 1);
                    }
                }
            }
        }
    }
}

/// The id the first synthesized filler row would get: the id immediately
/// following the last surviving real id.
pub open spec fn filler_start(surv: Seq<LutEntry>) -> int {
    if surv.len() == 0 {
        0
    } else {
        surv.last().id + 1
    }
}

/// How many filler rows reallocation synthesizes: one per capacity slot not
/// taken by a surviving row, as long as filler ids stay representable as
/// non-negative `i32` row ids.
pub open spec fn filler_count(surv: Seq<LutEntry>, new_len: int) -> int {
    let budget = new_len - surv.len();
    let avail = 0x8000_0000 - filler_start(surv);
    if avail <= 0 {
        0
    } else if budget <= avail {
        budget
    } else {
        avail
    }
}

/// The capacity reallocation aims for: unchanged when compacting, else
/// doubled (at least 32), clamped to the format maximum.
pub open spec fn new_capacity(old_len: int, grow: bool) -> int {
    if grow {
        let doubled = if old_len * 2 >= 32 {
            old_len * 2
        } else {
            32
        };
        if doubled <= MAX_ROW_COUNT {
            doubled
        } else {
            MAX_ROW_COUNT as int
        }
    } else {
        old_len
    }
}

/// The number of old LUT slots reallocation scans: the row count without the
/// sentinel, clamped to the format maximum.
pub open spec fn scan_len(lut: Seq<LutEntry>) -> int {
    let total = if has_sentinel(lut) {
        lut.len() - 1
    } else {
        lut.len() as int
    };
    if total <= MAX_ROW_COUNT {
        total
    } else {
        MAX_ROW_COUNT as int
    }
}

/// A LUT whose tail from position `s` on holds `f` fillers threaded into a
/// free list, each linking to the one before it, the first terminating the
/// chain: following links from position `j` visits exactly `j` down to `s`.
proof fn lemma_filler_chain(lut: Seq<LutEntry>, s: int, f: int, j: int, fuel: nat)
    requires
        0 <= s,
        s + f <= lut.len() - 1,
        lut.len() - 1 <= MAX_ROW_COUNT + 1,
        forall|p: int|
            s <= p < s + f ==> #[trigger] lut[p].index == if p == s {
                i32::MIN
            } else {
                (-p) as i32
            },
        s <= j < s + f,
        fuel >= j - s + 2,
    ensures
        free_chain(lut, j, fuel) == Seq::new((j - s + 1) as nat, |i: int| j - i),
    decreases j - s,
{
    if j == s {
        assert(lut[j].index == i32::MIN);
        assert(link_not(lut[j].index as int) == i32::MAX);
        assert(free_chain(lut, j, fuel) == seq![j] + free_chain(
            lut,
            i32::MAX as int,
            (fuel - 1) as nat,
        ));
        assert(i32::MAX as int >= lut.len() - 1);
        assert(free_chain(lut, j, fuel) =~= Seq::new(1nat, |i: int| j - i));
    } else {
        assert(lut[j].index == (-j) as i32);
        assert(link_not(lut[j].index as int) == j - 1);
        lemma_filler_chain(lut, s, f, j - 1, (fuel - 1) as nat);
        assert(free_chain(lut, j, fuel) =~= Seq::new((j - s + 1) as nat, |i: int| j - i));
    }
}

/// What [`FileHeader::clone_reallocate`] produces when it succeeds: a fresh
/// well-formed table at `new_base` holding every surviving row of the old
/// table in ascending id order, its data pointer rebased so its resolved
/// address is unchanged, followed by synthesized free filler rows and the
/// free-list sentinel.
pub open spec fn realloc_post(
    old_t: FileHeader,
    new_t: FileHeader,
    grow: bool,
    new_base: u64,
    sz: u64,
) -> bool {
    let old_len = scan_len(old_t.lut@);
    let new_len = new_capacity(old_len, grow);
    let surv = survivors(old_t.lut@, old_t.descriptors@.len() as int, old_len);
    let s = surv.len() as int;
    let f = filler_count(surv, new_len);
    let start = filler_start(surv);
    &&& new_t.version == 1 && new_t.endianness == 0 && new_t.layout_flags == 0x85
        && new_t.format_flags == 3
    &&& new_t.row_count == (if new_len <= 0xffff {
        new_len
    } else {
        0xffff
    })
    &&& new_t.base == new_base
    &&& new_t.name_bytes@.len() == 0
    &&& sz == HEADER_SIZE + DESCRIPTOR_SIZE * new_len
    &&& new_t.lut@.len() == s + f + 1
    &&& new_t.descriptors@.len() == s + f
    &&& forall|j: int|
        0 <= j < s ==> #[trigger] new_t.lut@[j] == LutEntry { id: surv[j].id, index: j as i32 }
    &&& forall|j: int|
        0 <= j < s ==> #[trigger] new_t.descriptors@[j] == RowDescriptor {
            id: surv[j].id,
            data_offset: wsub(
                wadd(old_t.base, old_t.descriptors@[surv[j].index as int].data_offset),
                new_base,
            ),
        }
    &&& forall|j: int|
        s <= j < s + f ==> #[trigger] new_t.lut@[j] == LutEntry {
            id: (start + (j - s)) as u32,
            index: if j == s {
                i32::MIN
            } else {
                (-j) as i32
            },
        }
    &&& forall|j: int|
        s <= j < s + f ==> #[trigger] new_t.descriptors@[j] == RowDescriptor {
            id: (start + (j - s)) as u32,
            data_offset: 0,
        }
    &&& new_t.lut@[s + f] == LutEntry {
        id: u32::MAX,
        index: if f > 0 {
            (s + f - 1) as i32
        } else {
            NO_SLOT
        },
    }
    &&& new_t.wf()
    &&& new_t.spec_is_large_mode()
    &&& chain_of(new_t.lut@) == Seq::new(f as nat, |i: int| s + f - 1 - i)
}

impl FileHeader {
    /// Clone and reallocate a table into a fresh buffer at `new_base`,
    /// removing duplicate rows, dropping dangling index entries, rebasing
    /// every surviving row's data offset, and synthesizing enough free
    /// filler rows to reach the new capacity, threaded into a fresh free
    /// list. The original table is never touched.
    ///
    /// `new_base` is the address the backing allocator returned for the new
    /// buffer; a null address means allocation failed.
    ///
    /// # Errors:
    /// - [`Error::Malformed`] if the layout discriminant is not a known one.
    /// - [`Error::FailedRealloc`] if the allocator returned null; the
    ///   original table is unaffected.
    #[verifier::rlimit(60)]
    pub fn clone_reallocate(&self, grow: bool, new_base: u64) -> (r: Result<
        (FileHeader, u64),
        Error,
    >)
        ensures
            match r {
                Ok(p) => (self.spec_row_descriptor_offset() matches Ok(_)) && new_base != 0
                    && realloc_post(*self, p.0, grow, new_base, p.1),
                Err(e) => (e == Error::Malformed && self.spec_row_descriptor_offset() == Err::<
                    usize,
                    Error,
                >(Error::Malformed)) || (e == Error::FailedRealloc
                    && (self.spec_row_descriptor_offset() matches Ok(_)) && new_base == 0),
            },
    {
        let _descriptor_offset = match self.row_descriptor_offset() {
            Ok(o) => o,
            Err(e) => {
                return Err(e);
            },
        };
        if new_base == 0 {
            return Err(Error::FailedRealloc);
        }
        let lut_len = self.lut.len();
        let has_extra = lut_len > 0 && self.lut[lut_len - 1].id == u32::MAX;
        let total = if has_extra {
            lut_len - 1
        } else {
            lut_len
        };
        let old_len = if total <= MAX_ROW_COUNT {
            total
        } else {
            MAX_ROW_COUNT
        };
        let new_len = if grow {
            let doubled = if old_len * 2 >= 32 {
                old_len * 2
            } else {
                32
            };
            if doubled <= MAX_ROW_COUNT {
                doubled
            } else {
                MAX_ROW_COUNT
            }
        } else {
            old_len
        };
        proof {
            assert(old_len as int == scan_len(self.lut@));
            assert(new_len as int == new_capacity(old_len as int, grow));
            assert(old_len <= new_len);
        }
        let dlen = self.descriptors.len();
        let ghost gsurv = survivors(self.lut@, dlen as int, old_len as int);
        let mut new_lut: Vec<LutEntry> = Vec::new();
        let mut new_descs: Vec<RowDescriptor> = Vec::new();
        let mut i: usize = 0;
        while i < old_len
            invariant
                i <= old_len,
                old_len <= self.lut@.len(),
                dlen == self.descriptors@.len(),
                new_lut@.len() == new_descs@.len(),
                new_lut@.len() == survivors(self.lut@, dlen as int, i as int).len(),
                new_lut@.len() <= i,
                forall|j: int|
                    0 <= j < new_lut@.len() ==> #[trigger] new_lut@[j] == (LutEntry {
                        id: survivors(self.lut@, dlen as int, i as int)[j].id,
                        index: j as i32,
                    }),
                forall|j: int|
                    0 <= j < new_descs@.len() ==> #[trigger] new_descs@[j] == (RowDescriptor {
                        id: survivors(self.lut@, dlen as int, i as int)[j].id,
                        data_offset: wsub(
                            wadd(
                                self.base,
                                self.descriptors@[survivors(
                                    self.lut@,
                                    dlen as int,
                                    i as int,
                                )[j].index as int].data_offset,
                            ),
                            new_base,
                        ),
                    }),
            decreases old_len - i,
        {
            let ghost prefix = survivors(self.lut@, dlen as int, i as int);
            let e = self.lut[i];
            let last_ok = if new_lut.len() == 0 {
                true
            } else {
                new_lut[new_lut.len() - 1].id < e.id
            };
            proof {
                lemma_survivors_shape(self.lut@, dlen as int, i as int);
                if prefix.len() > 0 {
                    assert(new_lut@[prefix.len() - 1].id == prefix.last().id);
                }
            }
            if e.id != u32::MAX && last_ok && e.index >= 0 && (e.index as usize) < dlen {
                let pos = new_lut.len();
                let off = self.descriptors[e.index as usize].data_offset;
                let reb = self.base.wrapping_add(off).wrapping_sub(new_base);
                new_lut.push(LutEntry { id: e.id, index: pos as i32 });
                new_descs.push(RowDescriptor { id: e.id, data_offset: reb });
                proof {
                    assert(keep_entry(prefix, self.lut@[i as int], dlen as int));
                    assert(survivors(self.lut@, dlen as int, i + 1) == prefix.push(
                        self.lut@[i as int],
                    ));
                }
            } else {
                proof {
                    assert(!keep_entry(prefix, self.lut@[i as int], dlen as int));
                    assert(survivors(self.lut@, dlen as int, i + 1) == prefix);
                }
            }
            i = i + 1;
        }
        let s = new_lut.len();
        proof {
            assert(gsurv == survivors(self.lut@, dlen as int, old_len as int));
            lemma_survivors_shape(self.lut@, dlen as int, old_len as int);
            assert(s as int == gsurv.len());
            assert(s <= old_len <= new_len);
        }
        let mut candidate: u32 = if s > 0 {
            new_lut[s - 1].id + 1
        } else {
            0
        };
        proof {
            assert(candidate as int == filler_start(gsurv));
        }
        let mut free_head: i32 = NO_SLOT;
        let ghost start = filler_start(gsurv);
        while new_lut.len() < new_len && candidate <= 0x7fff_ffff
            invariant
                s as int == gsurv.len(),
                s <= new_lut@.len() <= new_len,
                new_len <= MAX_ROW_COUNT,
                new_lut@.len() == new_descs@.len(),
                candidate as int == start + (new_lut@.len() - s),
                new_lut@.len() > s ==> candidate as int <= 0x8000_0000,
                free_head == if new_lut@.len() == s {
                    NO_SLOT
                } else {
                    (new_lut@.len() - 1) as i32
                },
                forall|j: int|
                    0 <= j < s ==> #[trigger] new_lut@[j] == (LutEntry {
                        id: gsurv[j].id,
                        index: j as i32,
                    }),
                forall|j: int|
                    0 <= j < s ==> #[trigger] new_descs@[j] == (RowDescriptor {
                        id: gsurv[j].id,
                        data_offset: wsub(
                            wadd(
                                self.base,
                                self.descriptors@[gsurv[j].index as int].data_offset,
                            ),
                            new_base,
                        ),
                    }),
                forall|j: int|
                    s <= j < new_lut@.len() ==> #[trigger] new_lut@[j] == (LutEntry {
                        id: (start + (j - s)) as u32,
                        index: if j == s {
                            i32::MIN
                        } else {
                            (-j) as i32
                        },
                    }),
                forall|j: int|
                    s <= j < new_descs@.len() ==> #[trigger] new_descs@[j] == (RowDescriptor {
                        id: (start + (j - s)) as u32,
                        data_offset: 0,
                    }),
            decreases new_len - new_lut@.len(),
        {
            let pos = new_lut.len();
            new_lut.push(LutEntry { id: candidate, index: -1 - free_head });
            new_descs.push(RowDescriptor { id: candidate, data_offset: 0 });
            free_head = pos as i32;
            candidate = candidate + 1;
        }
        let ghost f = new_lut@.len() - s;
        proof {
            assert(f == filler_count(gsurv, new_len as int)) by {
                let budget = new_len - s;
                let avail = 0x8000_0000 - start;
                if new_lut@.len() == new_len {
                    assert(f == budget);
                    assert(f > 0 ==> start + f <= 0x8000_0000);
                } else {
                    assert(candidate > 0x7fff_ffff);
                    assert(start + f >= 0x8000_0000);
                    if f > 0 {
                        assert(start + f == 0x8000_0000);
                        assert(f == avail);
                    } else {
                        assert(avail <= 0);
                    }
                }
            }
        }
        new_lut.push(LutEntry { id: u32::MAX, index: free_head });
        let new_size = HEADER_SIZE + DESCRIPTOR_SIZE * (new_len as u64);
        let old_data = if self.layout_flags <= 2 {
            if self.is_large_mode() {
                (old_len as u64) * DESCRIPTOR_SIZE
            } else {
                (old_len as u64) * NARROW_DESCRIPTOR_SIZE
            }
        } else {
            self.data_offset
        };
        let new_data_offset = self.base.wrapping_add(old_data).wrapping_sub(new_base);
        let new_row_count: u16 = if new_len <= 0xffff {
            new_len as u16
        } else {
            0xffff
        };
        let new_t = FileHeader {
            version: 1,
            endianness: 0,
            layout_flags: 0x85,
            format_flags: 3,
            row_count: new_row_count,
            data_offset: new_data_offset,
            name_bytes: Vec::new(),
            base: new_base,
            lut: new_lut,
            descriptors: new_descs,
        };
        proof {
            lemma_realloc_result_wf(*self, new_t, grow, new_base, new_size);
        }
        Ok((new_t, new_size))
    }
}

/// The proof that the table [`FileHeader::clone_reallocate`] assembles is
/// well formed, with its free list visiting exactly the filler slots from
/// the last down to the first.
proof fn lemma_realloc_result_wf(
    old_t: FileHeader,
    new_t: FileHeader,
    grow: bool,
    new_base: u64,
    sz: u64,
)
    requires
        ({
            let old_len = scan_len(old_t.lut@);
            let new_len = new_capacity(old_len, grow);
            let surv = survivors(old_t.lut@, old_t.descriptors@.len() as int, old_len);
            let s = surv.len() as int;
            let f = filler_count(surv, new_len);
            let start = filler_start(surv);
            &&& new_t.lut@.len() == s + f + 1
            &&& new_t.descriptors@.len() == s + f
            &&& forall|j: int|
                0 <= j < s ==> #[trigger] new_t.lut@[j] == LutEntry {
                    id: surv[j].id,
                    index: j as i32,
                }
            &&& forall|j: int|
                0 <= j < s ==> #[trigger] new_t.descriptors@[j].id == surv[j].id
            &&& forall|j: int|
                s <= j < s + f ==> #[trigger] new_t.lut@[j] == LutEntry {
                    id: (start + (j - s)) as u32,
                    index: if j == s {
                        i32::MIN
                    } else {
                        (-j) as i32
                    },
                }
            &&& forall|j: int|
                s <= j < s + f ==> #[trigger] new_t.descriptors@[j].id == ((start + (j - s)) as u32)
            &&& new_t.lut@[s + f] == LutEntry {
                id: u32::MAX,
                index: if f > 0 {
                    (s + f - 1) as i32
                } else {
                    NO_SLOT
                },
            }
        }),
    ensures
        new_t.wf(),
        ({
            let old_len = scan_len(old_t.lut@);
            let new_len = new_capacity(old_len, grow);
            let surv = survivors(old_t.lut@, old_t.descriptors@.len() as int, old_len);
            let s = surv.len() as int;
            let f = filler_count(surv, new_len);
            chain_of(new_t.lut@) == Seq::new(f as nat, |i: int| s + f - 1 - i)
        }),
{
    let old_len = scan_len(old_t.lut@);
    let new_len = new_capacity(old_len, grow);
    let surv = survivors(old_t.lut@, old_t.descriptors@.len() as int, old_len);
    let s = surv.len() as int;
    let f = filler_count(surv, new_len);
    let start = filler_start(surv);
    let lut = new_t.lut@;
    let n = s + f;
    lemma_survivors_shape(old_t.lut@, old_t.descriptors@.len() as int, old_len);
    assert(s <= old_len);
    assert(n <= new_len <= MAX_ROW_COUNT);
    assert(f > 0 ==> start + f <= 0x8000_0000);
    // Sortedness across survivors, fillers and the sentinel.
    assert forall|i: int, j: int| 0 <= i < j < lut.len() implies lut[i].id < lut[j].id by {
        if j < s {
        } else if j < n {
            if i >= s {
            } else {
                assert(lut[i].id == surv[i].id);
                if s > 0 {
                    assert(surv[i].id <= surv.last().id || i == s - 1);
                    assert(surv[i].id < start);
                }
            }
        } else {
            assert(lut[j].id == u32::MAX);
            if i < s {
                assert(lut[i].id == surv[i].id);
                assert(surv[i].id < u32::MAX);
            } else {
                assert(lut[i].id == ((start + (i - s)) as u32));
                assert(start + (i - s) < 0x8000_0000);
            }
        }
    }
    // The free chain is the fillers from last to first.
    let c = Seq::new(f as nat, |i: int| s + f - 1 - i);
    if f > 0 {
        lemma_filler_chain(lut, s, f, s + f - 1, lut.len() as nat);
        assert(chain_of(lut) == free_chain(lut, (s + f - 1) as int, lut.len() as nat));
        assert(chain_of(lut) =~= c);
    } else {
        assert(lut.last().index == NO_SLOT);
        assert(NO_SLOT >= lut.len() - 1);
        assert(chain_of(lut) =~= c);
    }
    assert forall|i: int, j: int| 0 <= i < j < c.len() implies c[i] != c[j] by {}
    assert(c.no_duplicates());
    assert forall|k: int| 0 <= k < n implies (#[trigger] lut[k].index < 0 <==> chain_of(
        lut,
    ).contains(k)) by {
        if k < s {
            assert(lut[k].index == k as i32);
            if c.contains(k) {
                let i = choose|i: int| 0 <= i < c.len() && c[i] == k;
                assert(s <= c[i]);
            }
        } else {
            assert(lut[k].index < 0);
            assert(c[s + f - 1 - k] == k);
            assert(c.contains(k));
        }
    }
    assert(lut_wf(lut));
    assert forall|k: int| 0 <= k < n implies #[trigger] new_t.descriptors@[k].id == lut[k].id by {}
    assert(new_t.wf());
}

/// Law: on a well-formed table, finding an id right after an insertion of
/// `data` under that id returns exactly `data`, provided `data` is not the
/// null address.
pub proof fn lemma_find_after_insert(old_t: FileHeader, new_t: FileHeader, data: u64, id: i32)
    requires
        old_t.wf(),
        FileHeader::insert_post(old_t, new_t, data, Ok(id)),
        data != 0,
    ensures
        new_t.find_spec(id) == Ok::<u64, Error>(data),
{
    let h = chain_of(old_t.lut@)[0];
    let idu = old_t.lut@[h].id;
    let off = wsub(data, old_t.base);
    assert(id == idu as i32);
    assert(chain_of(old_t.lut@).len() > 0);
    lemma_chain_members_in_range(old_t.lut@, old_t.lut@.last().index as int, old_t.lut@.len() as nat);
    assert(idu <= i32::MAX as u32) by {
        assert(chain_of(old_t.lut@).contains(h));
        assert(old_t.lut@[h].index < 0);
    }
    assert(id >= 0 && id as u32 == idu);
    assert(new_t.live_map() == old_t.live_map().insert(idu, off));
    assert(new_t.live_map().contains_key(idu));
    assert(new_t.has_live_id(idu));
    assert(new_t.live_map()[idu] == off);
    assert(wadd(new_t.base, off) == data);
}

/// Law: on a well-formed table, finding an id right after replacing its row
/// data with `data` returns exactly `data`, provided `data` is not the null
/// address.
pub proof fn lemma_find_after_replace(
    old_t: FileHeader,
    new_t: FileHeader,
    id: i32,
    data: u64,
    r: Result<u64, Error>,
)
    requires
        old_t.wf(),
        old_t.spec_is_large_mode(),
        id >= 0,
        old_t.has_live_id(id as u32),
        FileHeader::replace_post(old_t, new_t, id, data, r),
        data != 0,
    ensures
        new_t.find_spec(id) == Ok::<u64, Error>(data),
{
    let idu = id as u32;
    let off = wsub(data, old_t.base);
    assert(new_t.live_map() == old_t.live_map().insert(idu, off));
    assert(new_t.live_map().contains_key(idu));
    assert(new_t.has_live_id(idu));
    assert(new_t.live_map()[idu] == off);
    assert(wadd(new_t.base, off) == data);
}

/// Law: on a well-formed table, finding an id right after deleting it fails
/// with [`Error::NotInTable`]; deleted rows are never returned.
pub proof fn lemma_find_after_delete(
    old_t: FileHeader,
    new_t: FileHeader,
    id: i32,
    r: Result<u64, Error>,
)
    requires
        old_t.wf(),
        old_t.spec_is_large_mode(),
        id >= 0,
        old_t.has_live_id(id as u32),
        FileHeader::delete_post(old_t, new_t, id, r),
    ensures
        new_t.find_spec(id) == Err::<u64, Error>(Error::NotInTable),
{
    let idu = id as u32;
    assert(new_t.live_map() == old_t.live_map().remove(idu));
    assert(!new_t.live_map().contains_key(idu));
    assert(!new_t.has_live_id(idu));
}

/// Law: a well-formed lookup table is strictly sorted by id, its sentinel
/// last; every mutating operation's contract preserves well-formedness, so
/// sortedness survives any sequence of insertions and deletions.
pub proof fn lemma_wf_lut_sorted(t: FileHeader)
    requires
        t.wf(),
    ensures
        forall|i: int, j: int| 0 <= i < j < t.lut@.len() ==> t.lut@[i].id < t.lut@[j].id,
{
}

/// Law: in a well-formed table the free list, followed from the sentinel,
/// visits each free slot exactly once and terminates, and no live slot is
/// ever reachable from it.
pub proof fn lemma_free_list_invariant(t: FileHeader)
    requires
        t.wf(),
    ensures
        chain_of(t.lut@).no_duplicates(),
        forall|i: int|
            0 <= i < chain_of(t.lut@).len() ==> 0 <= #[trigger] chain_of(t.lut@)[i]
                < t.slot_count() && !t.is_live(chain_of(t.lut@)[i]),
        forall|k: int|
            0 <= k < t.slot_count() && !t.is_live(k) ==> chain_of(t.lut@).contains(k),
{
    lemma_chain_members_in_range(t.lut@, t.lut@.last().index as int, t.lut@.len() as nat);
    let c = chain_of(t.lut@);
    assert forall|i: int| 0 <= i < c.len() implies 0 <= #[trigger] c[i] < t.slot_count()
        && !t.is_live(c[i]) by {
        assert(c.contains(c[i]));
        assert(t.lut@[c[i]].index < 0);
    }
}

/// Survivors of a well-formed table are exactly its live LUT entries.
pub proof fn lemma_survivors_of_wf(lut: Seq<LutEntry>, descs_len: int, upto: int)
    requires
        lut_wf(lut),
        descs_len == lut.len() - 1,
        0 <= upto <= lut.len() - 1,
    ensures
        forall|j: int|
            0 <= j < survivors(lut, descs_len, upto).len() ==> {
                let e = #[trigger] survivors(lut, descs_len, upto)[j];
                0 <= e.index < upto && lut[e.index as int] == e
            },
        forall|k: int|
            0 <= k < upto && #[trigger] lut[k].index >= 0 ==> survivors(
                lut,
                descs_len,
                upto,
            ).contains(lut[k]),
    decreases upto,
{
    if upto > 0 {
        lemma_survivors_of_wf(lut, descs_len, upto - 1);
        let prefix = survivors(lut, descs_len, upto - 1);
        let sv = survivors(lut, descs_len, upto);
        let e = lut[upto - 1];
        if e.index >= 0 {
            assert(e.index == upto - 1);
            assert(e.id < lut.last().id);
            if prefix.len() > 0 {
                let last = prefix.last();
                assert(0 <= last.index < upto - 1);
                assert(lut[last.index as int] == last);
                assert(last.id < e.id);
            }
            assert(keep_entry(prefix, e, descs_len));
            assert(sv == prefix.push(e));
            assert forall|k: int| 0 <= k < upto && #[trigger] lut[k].index >= 0 implies sv.contains(
                lut[k],
            ) by {
                if k < upto - 1 {
                    assert(prefix.contains(lut[k]));
                    let j = choose|j: int| 0 <= j < prefix.len() && prefix[j] == lut[k];
                    assert(sv[j] == lut[k]);
                } else {
                    assert(sv[sv.len() - 1] == e);
                }
            }
        } else {
            assert(!keep_entry(prefix, e, descs_len));
            assert(sv == prefix);
            assert forall|k: int| 0 <= k < upto && #[trigger] lut[k].index >= 0 implies sv.contains(
                lut[k],
            ) by {
                assert(k != upto - 1);
            }
        }
    }
}

/// Law: reallocation preserves every live id of a well-formed table, with
/// its resolved data pointer unchanged in value; no id appears or
/// disappears.
pub proof fn lemma_realloc_preserves_live(
    old_t: FileHeader,
    new_t: FileHeader,
    grow: bool,
    new_base: u64,
    sz: u64,
)
    requires
        old_t.wf(),
        realloc_post(old_t, new_t, grow, new_base, sz),
    ensures
        forall|id: u32| old_t.has_live_id(id) <==> new_t.has_live_id(id),
        forall|id: u32|
            #[trigger] old_t.has_live_id(id) ==> wadd(new_t.base, new_t.live_map()[id]) == wadd(
                old_t.base,
                old_t.live_map()[id],
            ),
{
    let old_len = scan_len(old_t.lut@);
    let dlen = old_t.descriptors@.len() as int;
    let surv = survivors(old_t.lut@, dlen, old_len);
    let s = surv.len() as int;
    assert(old_len == old_t.slot_count());
    lemma_survivors_of_wf(old_t.lut@, dlen, old_len);
    lemma_wf_unique_ids(old_t.lut@);
    lemma_wf_unique_ids(new_t.lut@);
    assert forall|id: u32| old_t.has_live_id(id) implies new_t.has_live_id(id) && wadd(
        new_t.base,
        new_t.live_map()[id],
    ) == wadd(old_t.base, old_t.live_map()[id]) by {
        let k = old_t.live_pos(id);
        assert(old_t.is_live(k) && old_t.lut@[k].id == id);
        old_t.lemma_live_pos(id, k);
        assert(surv.contains(old_t.lut@[k]));
        let j = choose|j: int| 0 <= j < surv.len() && surv[j] == old_t.lut@[k];
        assert(new_t.lut@[j].id == id);
        assert(new_t.lut@[j].index == j as i32);
        assert(new_t.is_live(j));
        assert(new_t.has_live_id(id));
        new_t.lemma_live_pos(id, j);
        assert(surv[j].index == k);
        assert(new_t.live_map()[id] == new_t.descriptors@[j].data_offset);
        assert(new_t.descriptors@[j].data_offset == wsub(
            wadd(old_t.base, old_t.descriptors@[k].data_offset),
            new_base,
        ));
        assert(old_t.live_map()[id] == old_t.descriptors@[k].data_offset);
    }
    assert forall|id: u32| new_t.has_live_id(id) implies old_t.has_live_id(id) by {
        let j = choose|j: int| new_t.is_live(j) && new_t.lut@[j].id == id;
        let f = filler_count(surv, new_capacity(old_len, grow));
        if j < s {
            assert(new_t.lut@[j].id == surv[j].id);
            let e = surv[j];
            assert(0 <= e.index < old_len && old_t.lut@[e.index as int] == e);
            assert(old_t.is_live(e.index as int));
        } else if j < s + f {
            assert(new_t.lut@[j].index < 0);
        }
    }
}

/// Law: growing a well-formed table always leaves free capacity, as long as
/// fewer rows survive than the new capacity and the id space after the last
/// surviving id is not exhausted; the next insertion then succeeds.
pub proof fn lemma_growth_yields_free_capacity(
    old_t: FileHeader,
    new_t: FileHeader,
    new_base: u64,
    sz: u64,
)
    requires
        old_t.wf(),
        realloc_post(old_t, new_t, true, new_base, sz),
        survivors(old_t.lut@, old_t.descriptors@.len() as int, scan_len(old_t.lut@)).len()
            < new_capacity(scan_len(old_t.lut@), true),
        filler_start(survivors(old_t.lut@, old_t.descriptors@.len() as int, scan_len(old_t.lut@)))
            <= 0x7fff_ffff,
    ensures
        chain_of(new_t.lut@).len() > 0,
        new_t.spec_is_large_mode(),
{
    let old_len = scan_len(old_t.lut@);
    let new_len = new_capacity(old_len, true);
    let surv = survivors(old_t.lut@, old_t.descriptors@.len() as int, old_len);
    assert(filler_count(surv, new_len) > 0);
}

/// Law: growth converges. An insertion retried right after growing a
/// well-formed table succeeds, as long as fewer rows survived than the new
/// capacity and the id space above the last surviving id is not exhausted;
/// capacity at least doubles (from a floor of 32) until the format maximum,
/// so any insertion sequence within that maximum eventually stops triggering
/// growth.
pub proof fn lemma_insert_succeeds_after_growth(
    old_t: FileHeader,
    grown: FileHeader,
    new_t: FileHeader,
    new_base: u64,
    sz: u64,
    data: u64,
    r: Result<i32, Error>,
)
    requires
        old_t.wf(),
        realloc_post(old_t, grown, true, new_base, sz),
        survivors(old_t.lut@, old_t.descriptors@.len() as int, scan_len(old_t.lut@)).len()
            < new_capacity(scan_len(old_t.lut@), true),
        filler_start(survivors(old_t.lut@, old_t.descriptors@.len() as int, scan_len(old_t.lut@)))
            <= 0x7fff_ffff,
        FileHeader::insert_post(grown, new_t, data, r),
    ensures
        r is Ok,
{
    lemma_growth_yields_free_capacity(old_t, grown, new_base, sz);
}

impl Default for FileHeader {
    /// A blank large-mode table at the null base address with no rows.
    fn default() -> (r: Self)
        ensures
            r.version == 1 && r.endianness == 0 && r.layout_flags == 0x85 && r.format_flags == 3,
            r.row_count == 0 && r.data_offset == 0 && r.base == 0,
            r.name_bytes@.len() == 0,
            r.lut@.len() == 0,
            r.descriptors@.len() == 0,
    {
        FileHeader {
            version: 1,
            endianness: 0,
            layout_flags: 0x85,
            format_flags: 3,
            row_count: 0,
            data_offset: 0,
            name_bytes: Vec::new(),
            base: 0,
            lut: Vec::new(),
            descriptors: Vec::new(),
        }
    }
}

} // verus!
